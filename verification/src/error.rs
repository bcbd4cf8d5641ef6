//! The runtime's error types. Causes that arrive from outside the library
//! (interpreter tracebacks, file-system failures) are carried as plain text.

use vstd::prelude::*;

use crate::strutil::push_str;

verus! {

/// What can go wrong when calling into a plugin.
#[derive(Debug)]
pub enum PyPluginError {
    /// The module has no function of that name: function, module.
    FuncNotFound(String, String),
    /// The attribute could not be fetched: cause, function, module.
    CouldNotGetFunc(String, String, String),
    /// The attribute is not callable: function, module.
    FuncNotCallable(String, String),
    /// The call raised: cause, function, module.
    FuncCallError(String, String, String),
    /// Outstanding callback tasks did not stop when asked to.
    PluginNotStopped,
}

impl PyPluginError {
    /// A line describing the error.
    pub fn message(&self) -> (r: String)
        ensures
            r@ == match self {
                PyPluginError::FuncNotFound(name, module) => "plugin function not found: "@
                    + name@ + " in "@ + module@,
                PyPluginError::CouldNotGetFunc(cause, name, module) =>
                    "could not fetch plugin function: "@ + cause@ + "|"@ + name@ + " in "@
                    + module@,
                PyPluginError::FuncNotCallable(name, module) =>
                    "plugin attribute is not callable: "@ + name@ + " in "@ + module@,
                PyPluginError::FuncCallError(cause, name, module) =>
                    "plugin function call failed: "@ + cause@ + "|"@ + name@ + " in "@ + module@,
                PyPluginError::PluginNotStopped => "plugin tasks not stopped cleanly"@,
            },
    {
        let mut s = String::new();
        match self {
            PyPluginError::FuncNotFound(name, module) => {
                push_str(&mut s, "plugin function not found: ");
                push_str(&mut s, name.as_str());
                push_str(&mut s, " in ");
                push_str(&mut s, module.as_str());
            },
            PyPluginError::CouldNotGetFunc(cause, name, module) => {
                push_str(&mut s, "could not fetch plugin function: ");
                push_str(&mut s, cause.as_str());
                push_str(&mut s, "|");
                push_str(&mut s, name.as_str());
                push_str(&mut s, " in ");
                push_str(&mut s, module.as_str());
            },
            PyPluginError::FuncNotCallable(name, module) => {
                push_str(&mut s, "plugin attribute is not callable: ");
                push_str(&mut s, name.as_str());
                push_str(&mut s, " in ");
                push_str(&mut s, module.as_str());
            },
            PyPluginError::FuncCallError(cause, name, module) => {
                push_str(&mut s, "plugin function call failed: ");
                push_str(&mut s, cause.as_str());
                push_str(&mut s, "|");
                push_str(&mut s, name.as_str());
                push_str(&mut s, " in ");
                push_str(&mut s, module.as_str());
            },
            PyPluginError::PluginNotStopped => {
                push_str(&mut s, "plugin tasks not stopped cleanly");
            },
        }
        s
    }
}

/// What can go wrong while loading or reloading one plugin.
#[derive(Debug)]
pub enum PyPluginInitError {
    /// The load hook exists but is not callable.
    NoOnloadFunc,
    /// The module defines no manifest.
    NoManifest,
    /// The manifest attribute has the wrong type; carries the found type's
    /// name.
    ManifestTypeMismatch(String),
    /// The plugin's source file is missing or not a file.
    PluginNotFound,
    /// The source file could not be read; carries the cause.
    ReadPluginFaild(String),
    /// The plugin's config file path is a directory; carries the path.
    PluginCfgIsDir(String),
    /// The config file could not be read; carries the cause.
    ReadPluginCfgFaild(String),
    /// The config file's text was rejected.
    PluginConfigParseError(crate::toml_text::TomlParseError),
    /// The default config file could not be written; carries the cause.
    WritePluginDefaultCfgFaild(String),
    /// The load hook raised; carries the traceback text.
    OnloadFailed(String),
    /// Any other interpreter fault; carries the traceback text.
    PyError(String),
}

impl PyPluginInitError {
    /// A line describing the error.
    pub fn message(&self) -> (r: String)
        ensures
            r@ == match self {
                PyPluginInitError::NoOnloadFunc => "plugin load hook is not callable"@,
                PyPluginInitError::NoManifest => "plugin declares no manifest"@,
                PyPluginInitError::ManifestTypeMismatch(t) =>
                    "plugin manifest has the wrong type: "@ + t@,
                PyPluginInitError::PluginNotFound => "plugin file not found"@,
                PyPluginInitError::ReadPluginFaild(e) => "could not read plugin file: "@ + e@,
                PyPluginInitError::PluginCfgIsDir(p) => "plugin config path '"@ + p@
                    + "' is a directory"@,
                PyPluginInitError::ReadPluginCfgFaild(e) => "could not read plugin config: "@
                    + e@,
                PyPluginInitError::PluginConfigParseError(e) =>
                    "could not parse plugin config at line "@ + crate::strutil::dec_digits(
                    e.line as nat,
                ),
                PyPluginInitError::WritePluginDefaultCfgFaild(e) =>
                    "could not write default plugin config: "@ + e@,
                PyPluginInitError::OnloadFailed(e) => "plugin load hook raised: "@ + e@,
                PyPluginInitError::PyError(e) => "interpreter fault: "@ + e@,
            },
    {
        let mut s = String::new();
        match self {
            PyPluginInitError::NoOnloadFunc => {
                push_str(&mut s, "plugin load hook is not callable");
            },
            PyPluginInitError::NoManifest => {
                push_str(&mut s, "plugin declares no manifest");
            },
            PyPluginInitError::ManifestTypeMismatch(t) => {
                push_str(&mut s, "plugin manifest has the wrong type: ");
                push_str(&mut s, t.as_str());
            },
            PyPluginInitError::PluginNotFound => {
                push_str(&mut s, "plugin file not found");
            },
            PyPluginInitError::ReadPluginFaild(e) => {
                push_str(&mut s, "could not read plugin file: ");
                push_str(&mut s, e.as_str());
            },
            PyPluginInitError::PluginCfgIsDir(p) => {
                push_str(&mut s, "plugin config path '");
                push_str(&mut s, p.as_str());
                push_str(&mut s, "' is a directory");
            },
            PyPluginInitError::ReadPluginCfgFaild(e) => {
                push_str(&mut s, "could not read plugin config: ");
                push_str(&mut s, e.as_str());
            },
            PyPluginInitError::PluginConfigParseError(e) => {
                push_str(&mut s, "could not parse plugin config at line ");
                crate::strutil::push_usize(&mut s, e.line);
            },
            PyPluginInitError::WritePluginDefaultCfgFaild(e) => {
                push_str(&mut s, "could not write default plugin config: ");
                push_str(&mut s, e.as_str());
            },
            PyPluginInitError::OnloadFailed(e) => {
                push_str(&mut s, "plugin load hook raised: ");
                push_str(&mut s, e.as_str());
            },
            PyPluginInitError::PyError(e) => {
                push_str(&mut s, "interpreter fault: ");
                push_str(&mut s, e.as_str());
            },
        }
        s
    }
}

} // verus!
