use shenbot_plugins::config::{ConfigItem, ConfigStoragePy};
use shenbot_plugins::manifest::PluginManifestPy;
use shenbot_plugins::plugin::{CfgProbe, ManifestFetch, ModuleHandle, OnloadProbe, PyPlugin};
use shenbot_plugins::plugin::{classify_manifest_fetch, finish_onload};
use shenbot_plugins::storage::{PluginStatus, PyPluginStorage, ReloadCheck};

fn s(text: &str) -> String {
    String::from(text)
}

fn greeter_manifest() -> PluginManifestPy {
    let section = ConfigStoragePy::new(vec![(s("greeting"), ConfigItem::Str(s("hi")))]);
    PluginManifestPy::new(
        s("greeter"),
        s("Greeter"),
        s("1.0.0"),
        None,
        vec![(s("main"), section)],
        vec![s("alice")],
        None,
    )
}

fn load_greeter(path: &str, source: &str, token: u64) -> PyPlugin {
    let manifest = classify_manifest_fetch(ManifestFetch::Found(greeter_manifest())).unwrap();
    let mut plugin = PyPlugin::assemble(s(path), source, ModuleHandle { id: token }, manifest);
    let written = plugin.default_cfg_text();
    assert!(written.contains("greeting = \"hi\""));
    plugin
        .init_self(Some(CfgProbe::AbsentWritten), OnloadProbe::Absent)
        .unwrap();
    plugin
}

#[test]
fn first_run_writes_defaults_and_enables() {
    let manifest = greeter_manifest();
    assert!(manifest.need_config_file());
    assert_eq!(manifest.config_file_name(), "greeter.toml");
    let plugin = load_greeter("plugins/greeter.py", "print('hi')\n", 1);
    let expected = "# plugin Greeter (greeter) config\n# plugin version: 1.0.0\n# plugin authors: alice\n# shenbot version: 2.0.1\n# ica api version: 1.6.0\n# tailchat api version: 1.1.0\n\n\n[main]\ngreeting = \"hi\"\n";
    assert_eq!(plugin.default_cfg_text(), expected);
    let mut registry = PyPluginStorage::new();
    registry.add_plugin(plugin);
    assert_eq!(registry.get_status("greeter"), Some(true));
}

#[test]
fn unknown_id_is_a_no_op() {
    let mut registry = PyPluginStorage::new();
    registry.add_plugin(load_greeter("plugins/greeter.py", "print('hi')\n", 1));
    assert_eq!(registry.get_status("nonexistent"), None);
    registry.set_status("nonexistent", true);
    assert_eq!(registry.get_status("nonexistent"), None);
    assert_eq!(registry.get_status("greeter"), Some(true));
}

#[test]
fn hash_gates_the_reload() {
    let source = "VERSION = 1\n";
    let path = "plugins/greeter.py";
    let mut registry = PyPluginStorage::new();
    registry.add_plugin(load_greeter(path, source, 1));
    // untouched bytes never ask for a reload
    assert_eq!(registry.check_reload_needed(path, source), ReloadCheck::Unchanged);
    // changed bytes do
    assert_eq!(
        registry.check_reload_needed(path, "VERSION = 2\n"),
        ReloadCheck::Changed
    );
    // an unknown path is nobody's business
    assert_eq!(
        registry.check_reload_needed("plugins/other.py", source),
        ReloadCheck::NoPlugin
    );
}

#[test]
fn failed_reload_keeps_the_old_state() {
    let path = "plugins/greeter.py";
    let mut registry = PyPluginStorage::new();
    registry.add_plugin(load_greeter(path, "VERSION = 1\n", 1));
    registry.set_status("greeter", false);
    let before = registry
        .get_plugin_by_path(path)
        .map(|p| p.plugin_hash())
        .unwrap();
    let err = registry
        .finish_reload(
            path,
            Err(shenbot_plugins::error::PyPluginInitError::PluginNotFound),
        )
        .unwrap_err();
    assert_eq!(err.message(), "plugin file not found");
    let after = registry
        .get_plugin_by_path(path)
        .map(|p| p.plugin_hash())
        .unwrap();
    assert_eq!(before, after);
    assert_eq!(registry.get_status("greeter"), Some(false));
}

#[test]
fn successful_reload_replaces_as_a_unit() {
    let path = "plugins/greeter.py";
    let mut registry = PyPluginStorage::new();
    registry.add_plugin(load_greeter(path, "VERSION = 1\n", 1));
    registry.set_status("greeter", false);
    let old_hash = registry
        .get_plugin_by_path(path)
        .map(|p| p.plugin_hash())
        .unwrap();
    let candidate = load_greeter(path, "VERSION = 2\n", 2);
    assert_eq!(registry.finish_reload(path, Ok(candidate)).unwrap(), true);
    let plugin = registry.get_plugin_by_path(path).unwrap();
    // module token, digest replaced together; the enabled flag survives
    assert_eq!(plugin.py_module.id, 2);
    assert_ne!(plugin.plugin_hash(), old_hash);
    assert_eq!(registry.get_status("greeter"), Some(false));
    assert_eq!(registry.check_reload_needed(path, "VERSION = 2\n"), ReloadCheck::Unchanged);
}

#[test]
fn status_survives_a_restart() {
    let path = "plugins/greeter.py";
    let mut registry = PyPluginStorage::new();
    registry.add_plugin(load_greeter(path, "VERSION = 1\n", 1));
    registry.set_status("greeter", false);
    // shutdown: registry flags go to the file
    let file_text = registry.sync_status_to_file(None);
    let expected = "# Generated by the plugin host; the enable flags below are rewritten on sync.\n# Edit with care: unknown ids are kept, other lines are replaced.\n\n[plugins]\ngreeter = false\n";
    assert_eq!(file_text, expected);
    // restart: a fresh scan loads the plugin enabled by default
    let mut fresh = PyPluginStorage::new();
    let rewritten =
        fresh.load_plugins(vec![load_greeter(path, "VERSION = 1\n", 3)], Some(file_text.as_str()));
    assert_eq!(fresh.get_status("greeter"), Some(false));
    assert_eq!(rewritten, file_text);
}

#[test]
fn status_file_reads_back() {
    let mut status = PluginStatus::new_empty();
    status.set("a", true);
    status.set("b", false);
    let text = status.to_text();
    let read = PluginStatus::from_text(text.as_str());
    assert_eq!(read.get("a"), Some(true));
    assert_eq!(read.get("b"), Some(false));
    assert_eq!(read.get("c"), None);
    assert_eq!(PluginStatus::fmt_bool(true), "enabled");
    assert_eq!(PluginStatus::fmt_bool(false), "disabled");
}

#[test]
fn manifest_binds_file_sections() {
    let mut manifest = greeter_manifest();
    let table = shenbot_plugins::toml_text::parse_table(
        "\n[main]\ngreeting = \"good evening\"\n",
    )
    .unwrap();
    manifest.init_with_toml(&table);
    assert!(manifest.inited);
    let (_, section) = &manifest.config[0];
    match section.get_value("greeting", None) {
        Some(ConfigItem::Str(v)) => assert_eq!(v, "good evening"),
        other => panic!("unexpected value: {:?}", other),
    }
}

#[test]
fn missing_section_falls_back_to_defaults() {
    let mut manifest = greeter_manifest();
    let table = shenbot_plugins::toml_text::parse_table("stray = 1\n").unwrap();
    manifest.init_with_toml(&table);
    assert!(manifest.inited);
    let (_, section) = &manifest.config[0];
    match section.get_value("greeting", None) {
        Some(ConfigItem::Str(v)) => assert_eq!(v, "hi"),
        other => panic!("unexpected value: {:?}", other),
    }
}

#[test]
fn config_probe_errors_pass_through() {
    let mut plugin = load_greeter("plugins/greeter.py", "x\n", 1);
    let err = plugin
        .bind_config(CfgProbe::IsDir(s("cfg/greeter.toml")))
        .unwrap_err();
    assert_eq!(
        err.message(),
        "plugin config path 'cfg/greeter.toml' is a directory"
    );
    let err = plugin
        .bind_config(CfgProbe::PresentReadFailed(s("denied")))
        .unwrap_err();
    assert_eq!(err.message(), "could not read plugin config: denied");
    let err = plugin
        .bind_config(CfgProbe::Present(s("not toml ][")))
        .unwrap_err();
    assert_eq!(err.message(), "could not parse plugin config at line 1");
    let err = plugin
        .bind_config(CfgProbe::AbsentWriteFailed(s("disk full")))
        .unwrap_err();
    assert_eq!(err.message(), "could not write default plugin config: disk full");
    // manifest and hook outcomes
    assert!(classify_manifest_fetch(ManifestFetch::Absent).is_err());
    let err = classify_manifest_fetch(ManifestFetch::WrongType(s("int"))).unwrap_err();
    assert_eq!(err.message(), "plugin manifest has the wrong type: int");
    let err = finish_onload(OnloadProbe::NotCallable).unwrap_err();
    assert_eq!(err.message(), "plugin load hook is not callable");
    let err = finish_onload(OnloadProbe::Raised(s("boom"))).unwrap_err();
    assert_eq!(err.message(), "plugin load hook raised: boom");
    assert!(finish_onload(OnloadProbe::Done).is_ok());
}

#[test]
fn listing_and_removal() {
    let mut registry = PyPluginStorage::new();
    registry.add_plugin(load_greeter("plugins/greeter.py", "VERSION = 1\n", 1));
    registry.set_status("greeter", false);
    assert_eq!(
        registry.display_plugins(false),
        "plugin list (0/1):\ngreeter(Greeter) [disabled]\n"
    );
    assert_eq!(
        registry.display_plugins(true),
        "plugin list (0/1):\n\u{1b}[31mgreeter(Greeter)\u{1b}[0m\n"
    );
    let removed = registry.remove_plugin_by_path("plugins/greeter.py").unwrap();
    assert_eq!(removed.id(), "greeter");
    assert!(registry.remove_plugin_by_id("greeter").is_none());
    assert_eq!(registry.get_status("greeter"), None);
}
