//! One loaded plugin: its interpreter-side module handle, manifest, source
//! hash, enabled flag and source path, with the decision logic of loading,
//! config binding and hot reload.
//!
//! File reading and interpreter work happen outside the library; their
//! outcomes arrive here as plain probe values, and every decision taken on
//! them is verified. The module handle is an opaque token: the host keeps
//! the live interpreter object it stands for.

use vstd::prelude::*;

use crate::error::PyPluginInitError;
use crate::manifest::{ManifestV, PluginManifestPy, manifest_init};
use crate::strutil::push_str;

verus! {

/// The digest of a plugin source text; what `blake3::hash` returns for its
/// bytes.
pub uninterp spec fn hash_of(s: Seq<char>) -> Seq<u8>;

/// Relies on `blake3::hash`: a 32-byte digest computed from the input
/// bytes alone.
#[verifier::external_body]
fn blake3_hash(content: &str) -> (r: Vec<u8>)
    ensures
        r@ == hash_of(content@),
        r@.len() == 32,
{
    blake3::hash(content.as_bytes()).as_bytes().to_vec()
}

/// An opaque token standing for one interpreter-side module object. The
/// host maps tokens to the live objects; the registry never looks inside.
#[derive(Debug, Clone, Copy, PartialEq, Eq, Structural)]
pub struct ModuleHandle {
    /// The host's identifier for the module object.
    pub id: u64,
}

/// What fetching the well-known manifest attribute from a module yielded.
pub enum ManifestFetch {
    /// The attribute held a manifest.
    Found(PluginManifestPy),
    /// The attribute does not exist.
    Absent,
    /// The attribute held something else; carries the found type's name.
    WrongType(String),
}

/// What probing and handling the plugin's config file yielded.
pub enum CfgProbe {
    /// The config path is a directory; carries the path.
    IsDir(String),
    /// No file existed; the defaults were written successfully.
    AbsentWritten,
    /// No file existed and writing the defaults failed; carries the cause.
    AbsentWriteFailed(String),
    /// The file existed and was read; carries its text.
    Present(String),
    /// The file existed but could not be read; carries the cause.
    PresentReadFailed(String),
}

/// What invoking the optional load hook yielded.
pub enum OnloadProbe {
    /// The module defines no load hook.
    Absent,
    /// The attribute exists but is not callable.
    NotCallable,
    /// The hook raised; carries the traceback text.
    Raised(String),
    /// The hook ran to completion.
    Done,
}

/// Turn a manifest fetch into the manifest, or the exact load error.
pub fn classify_manifest_fetch(fetch: ManifestFetch) -> (r: Result<
    PluginManifestPy,
    PyPluginInitError,
>)
    ensures
        match fetch {
            ManifestFetch::Found(m) => r matches Result::Ok(m2) && m2@ == m@,
            ManifestFetch::Absent => r matches Result::Err(e) && e is NoManifest,
            ManifestFetch::WrongType(t) => r matches Result::Err(e) && (e matches
                PyPluginInitError::ManifestTypeMismatch(t2) && t2@ == t@),
        },
{
    match fetch {
        ManifestFetch::Found(m) => Ok(m),
        ManifestFetch::Absent => Err(PyPluginInitError::NoManifest),
        ManifestFetch::WrongType(t) => Err(PyPluginInitError::ManifestTypeMismatch(t)),
    }
}

/// One loaded plugin.
#[derive(Debug)]
pub struct PyPlugin {
    /// The token of the loaded interpreter module.
    pub py_module: ModuleHandle,
    /// Whether the plugin receives events.
    pub enabled: bool,
    /// The manifest the module declared.
    pub manifest: PluginManifestPy,
    /// The digest of the source text the module was built from.
    pub hash_result: Vec<u8>,
    /// The path of the source file.
    pub plugin_path: String,
}

/// The abstract state of one loaded plugin.
#[verifier::ext_equal]
pub struct PluginV {
    pub py_module: u64,
    pub enabled: bool,
    pub manifest: ManifestV,
    pub hash_result: Seq<u8>,
    pub plugin_path: Seq<char>,
}

impl View for PyPlugin {
    type V = PluginV;

    open spec fn view(&self) -> PluginV {
        PluginV {
            py_module: self.py_module.id,
            enabled: self.enabled,
            manifest: self.manifest@,
            hash_result: self.hash_result@,
            plugin_path: self.plugin_path@,
        }
    }
}

impl PyPlugin {
    /// Whether the manifest's sections are well formed.
    pub open spec fn wf(self) -> bool {
        self.manifest.wf()
    }

    /// Put a freshly instantiated module together with its manifest: the
    /// source digest is computed here, and the plugin starts enabled.
    pub fn assemble(
        plugin_path: String,
        content: &str,
        py_module: ModuleHandle,
        manifest: PluginManifestPy,
    ) -> (r: Self)
        ensures
            r@.py_module == py_module.id,
            r@.enabled,
            r@.manifest == manifest@,
            r@.hash_result == hash_of(content@),
            r@.plugin_path == plugin_path@,
    {
        Self {
            py_module,
            enabled: true,
            manifest,
            hash_result: blake3_hash(content),
            plugin_path,
        }
    }

    /// The plugin's stable identifier.
    pub fn id(&self) -> (r: &str)
        ensures
            r@ == self@.manifest.plugin_id,
    {
        self.manifest.plugin_id.as_str()
    }

    /// The plugin's display name.
    pub fn name(&self) -> (r: &str)
        ensures
            r@ == self@.manifest.name,
    {
        self.manifest.name.as_str()
    }

    /// The identifier and name together, for log lines.
    pub fn id_and_name(&self) -> (r: String)
        ensures
            r@ == self@.manifest.plugin_id + "("@ + self@.manifest.name + ")"@,
    {
        let mut s = String::new();
        push_str(&mut s, self.manifest.plugin_id.as_str());
        push_str(&mut s, "(");
        push_str(&mut s, self.manifest.name.as_str());
        push_str(&mut s, ")");
        s
    }

    /// The plugin's version.
    pub fn version(&self) -> (r: &str)
        ensures
            r@ == self@.manifest.version,
    {
        self.manifest.version.as_str()
    }

    /// Whether the plugin receives events.
    pub fn is_enable(&self) -> (r: bool)
        ensures
            r == self@.enabled,
    {
        self.enabled
    }

    /// Set whether the plugin receives events; nothing else changes.
    pub fn set_enable(&mut self, status: bool)
        ensures
            final(self)@ == (PluginV { enabled: status, ..old(self)@ }),
    {
        self.enabled = status;
        assert(final(self)@ =~= PluginV { enabled: status, ..old(self)@ });
    }

    /// The path of the source file.
    pub fn plugin_path(&self) -> (r: String)
        ensures
            r@ == self@.plugin_path,
    {
        self.plugin_path.clone()
    }

    /// The digest of the loaded source.
    pub fn plugin_hash(&self) -> (r: Vec<u8>)
        ensures
            r@ == self@.hash_result,
    {
        self.hash_result.clone()
    }

    /// The manifest the module declared.
    pub fn manifest(&self) -> (r: &PluginManifestPy)
        ensures
            r@ == self@.manifest,
    {
        &self.manifest
    }

    /// The config file name this plugin needs, or nothing when it declares
    /// no configuration.
    pub fn config_requirement(&self) -> (r: Option<String>)
        ensures
            match r {
                Option::Some(n) => self@.manifest.config.len() > 0 && n@
                    == self@.manifest.plugin_id + ".toml"@,
                Option::None => self@.manifest.config.len() == 0,
            },
    {
        if self.manifest.need_config_file() {
            Some(self.manifest.config_file_name())
        } else {
            None
        }
    }

    /// The text to write as this plugin's first config file.
    pub fn default_cfg_text(&self) -> (r: String)
        requires
            self.manifest.wf(),
            self.manifest.values_ok(),
        ensures
            r@ == crate::manifest::manifest_header(self@.manifest)
                + crate::toml_text::doc_text(crate::manifest::manifest_save(self@.manifest)),
    {
        self.manifest.save_cfg_as_string()
    }

    /// Whether the on-disk source differs from what was loaded: its digest
    /// is compared to the stored one. Equal bytes always compare as
    /// unchanged.
    pub fn changed_given(&self, content: &str) -> (r: bool)
        ensures
            r == (hash_of(content@) != self@.hash_result),
    {
        let new_hash = blake3_hash(content);
        !crate::strutil::bytes_eq(&new_hash, &self.hash_result)
    }

    /// Bind the config file's probed state to the manifest: a directory or
    /// a failed read or write is the corresponding error and changes
    /// nothing; a written default or a missing file binds the defaults; a
    /// present file is parsed and bound, a rejected text changing nothing.
    pub fn bind_config(&mut self, probe: CfgProbe) -> (r: Result<(), PyPluginInitError>)
        requires
            old(self).wf(),
        ensures
            final(self).wf(),
            match probe {
                CfgProbe::IsDir(p) => r matches Result::Err(e) && (e matches
                    PyPluginInitError::PluginCfgIsDir(p2) && p2@ == p@) && final(self)@ == old(self)@,
                CfgProbe::AbsentWriteFailed(c) => r matches Result::Err(e) && (e matches
                    PyPluginInitError::WritePluginDefaultCfgFaild(c2) && c2@ == c@) && final(self)@ == old(self)@,
                CfgProbe::AbsentWritten => r is Ok && final(self)@ == (PluginV {
                    manifest: manifest_init(old(self)@.manifest, Seq::empty()),
                    ..old(self)@
                }),
                CfgProbe::PresentReadFailed(c) => r matches Result::Err(e) && (e matches
                    PyPluginInitError::ReadPluginCfgFaild(c2) && c2@ == c@) && final(self)@
                    == old(self)@,
                CfgProbe::Present(text) => match crate::toml_text::parse_doc(text@) {
                    Option::Some(t) => r is Ok && final(self)@ == (PluginV {
                        manifest: manifest_init(old(self)@.manifest, t),
                        ..old(self)@
                    }),
                    Option::None => r matches Result::Err(e) && e is PluginConfigParseError
                        && final(self)@ == old(self)@,
                },
            },
    {
        match probe {
            CfgProbe::IsDir(p) => Err(PyPluginInitError::PluginCfgIsDir(p)),
            CfgProbe::AbsentWriteFailed(c) => Err(
                PyPluginInitError::WritePluginDefaultCfgFaild(c),
            ),
            CfgProbe::AbsentWritten => {
                self.manifest.init_with_default();
                assert(final(self)@ =~= PluginV {
                    manifest: manifest_init(old(self)@.manifest, Seq::empty()),
                    ..old(self)@
                });
                Ok(())
            },
            CfgProbe::PresentReadFailed(c) => Err(PyPluginInitError::ReadPluginCfgFaild(c)),
            CfgProbe::Present(text) => {
                match crate::toml_text::parse_table(text.as_str()) {
                    Ok(table) => {
                        self.manifest.init_with_toml(&table);
                        assert(final(self)@ =~= PluginV {
                            manifest: manifest_init(
                                old(self)@.manifest,
                                crate::toml_text::parse_doc(text@)->0,
                            ),
                            ..old(self)@
                        });
                        Ok(())
                    },
                    Err(e) => Err(PyPluginInitError::PluginConfigParseError(e)),
                }
            },
        }
    }

    /// Bind the config file's probed state (for a plugin that declares
    /// configuration) and land the load hook's outcome: the two steps that
    /// finish a load after the module and manifest are in hand. A config
    /// failure stops before the hook; a hook failure leaves the bound
    /// config in place and reports the error.
    pub fn init_self(&mut self, cfg_probe: Option<CfgProbe>, onload: OnloadProbe) -> (r: Result<
        (),
        PyPluginInitError,
    >)
        requires
            old(self).wf(),
            (cfg_probe is Some) == (old(self)@.manifest.config.len() > 0),
        ensures
            final(self).wf(),
            match cfg_probe {
                Option::Some(CfgProbe::IsDir(_)) => r is Err && final(self)@ == old(self)@,
                Option::Some(CfgProbe::AbsentWriteFailed(_)) => r is Err && final(self)@ == old(
                    self,
                )@,
                Option::Some(CfgProbe::PresentReadFailed(_)) => r is Err && final(self)@ == old(
                    self,
                )@,
                Option::Some(CfgProbe::AbsentWritten) => after_onload(
                    r,
                    onload,
                    final(self)@,
                    (PluginV {
                        manifest: manifest_init(old(self)@.manifest, Seq::empty()),
                        ..old(self)@
                    }),
                ),
                Option::Some(CfgProbe::Present(text)) => match crate::toml_text::parse_doc(
                    text@,
                ) {
                    Option::Some(t) => after_onload(
                        r,
                        onload,
                        final(self)@,
                        (PluginV { manifest: manifest_init(old(self)@.manifest, t), ..old(self)@ }),
                    ),
                    Option::None => r is Err && final(self)@ == old(self)@,
                },
                Option::None => after_onload(r, onload, final(self)@, old(self)@),
            },
    {
        match cfg_probe {
            Some(probe) => {
                let bound = self.bind_config(probe);
                match bound {
                    Ok(_) => (),
                    Err(e) => {
                        return Err(e);
                    },
                }
            },
            None => (),
        }
        finish_onload(onload)
    }

    /// Replace the module, manifest and digest together, as one unit, from
    /// a fully loaded candidate; the enabled flag and path stay.
    ///
    /// A failed reload never reaches this point, so the previous state
    /// survives such a failure untouched.
    pub fn apply_reload(&mut self, candidate: PyPlugin)
        ensures
            final(self)@ == (PluginV {
                py_module: candidate@.py_module,
                manifest: candidate@.manifest,
                hash_result: candidate@.hash_result,
                enabled: old(self)@.enabled,
                plugin_path: old(self)@.plugin_path,
            }),
            final(self).wf() == candidate.wf(),
    {
        let PyPlugin { py_module, manifest, hash_result, .. } = candidate;
        self.py_module = py_module;
        self.manifest = manifest;
        self.hash_result = hash_result;
        assert(final(self)@ =~= PluginV {
            py_module: candidate@.py_module,
            manifest: candidate@.manifest,
            hash_result: candidate@.hash_result,
            enabled: old(self)@.enabled,
            plugin_path: old(self)@.plugin_path,
        });
    }
}

/// Turn the load hook's outcome into the load result: absence of the hook
/// is not an error, a hook that ran is success, a non-callable hook or a
/// raised error fails the load.
pub fn finish_onload(probe: OnloadProbe) -> (r: Result<(), PyPluginInitError>)
    ensures
        match probe {
            OnloadProbe::Absent => r is Ok,
            OnloadProbe::Done => r is Ok,
            OnloadProbe::NotCallable => r matches Result::Err(e) && e is NoOnloadFunc,
            OnloadProbe::Raised(t) => r matches Result::Err(e) && (e matches
                PyPluginInitError::OnloadFailed(t2) && t2@ == t@),
        },
{
    match probe {
        OnloadProbe::Absent => Ok(()),
        OnloadProbe::Done => Ok(()),
        OnloadProbe::NotCallable => Err(PyPluginInitError::NoOnloadFunc),
        OnloadProbe::Raised(t) => Err(PyPluginInitError::OnloadFailed(t)),
    }
}

/// What finishing a load with the given hook outcome leaves behind: the
/// bound state either way, success exactly when the hook did not fail.
pub open spec fn after_onload(
    r: Result<(), PyPluginInitError>,
    onload: OnloadProbe,
    got: PluginV,
    bound: PluginV,
) -> bool {
    got == bound && match onload {
        OnloadProbe::Absent => r is Ok,
        OnloadProbe::Done => r is Ok,
        OnloadProbe::NotCallable => r matches Result::Err(e) && e is NoOnloadFunc,
        OnloadProbe::Raised(t) => r matches Result::Err(e) && (e matches
            PyPluginInitError::OnloadFailed(t2) && t2@ == t@),
    }
}

} // verus!
