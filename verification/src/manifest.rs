//! A plugin's manifest: its declared identity and its named configuration
//! sections, with the derived behavior around config files.

use vstd::prelude::*;

use crate::config::{
    ConfigItem, ConfigStoragePy, ItemV, StorageV, as_toml_keys, entries_v, item_v, lemma_slots_v,
    storage_read, tbl_distinct, tbl_get,
};
use crate::strutil::push_str;
use crate::toml_text::{doc_ok, doc_text, root_entry_ok, slots_ok, table_to_text, value_ok};

verus! {

broadcast use vstd::std_specs::vec::group_vec_axioms;

/// The host's release version, written into generated config headers.
pub fn host_version() -> (r: &'static str)
    ensures
        r@ == "2.0.1"@,
{
    "2.0.1"
}

/// The first chat backend's API version.
pub fn ica_api_version() -> (r: &'static str)
    ensures
        r@ == "1.6.0"@,
{
    "1.6.0"
}

/// The second chat backend's API version.
pub fn tailchat_api_version() -> (r: &'static str)
    ensures
        r@ == "1.1.0"@,
{
    "1.1.0"
}

/// A plugin's declared identity and configuration sections.
#[derive(Debug)]
pub struct PluginManifestPy {
    /// The plugin's stable identifier; registry key and config file stem.
    pub plugin_id: String,
    /// The plugin's display name.
    pub name: String,
    /// The plugin's version.
    pub version: String,
    /// An optional description.
    pub description: Option<String>,
    /// The plugin's authors.
    pub authors: Vec<String>,
    /// An optional home page.
    pub homepage: Option<String>,
    /// The named configuration sections, names distinct.
    pub config: Vec<(String, ConfigStoragePy)>,
    /// Whether a config file (or the defaults) has been bound.
    pub inited: bool,
}

/// The abstract state of a manifest.
#[verifier::ext_equal]
pub struct ManifestV {
    pub plugin_id: Seq<char>,
    pub name: Seq<char>,
    pub version: Seq<char>,
    pub description: Option<Seq<char>>,
    pub authors: Seq<Seq<char>>,
    pub homepage: Option<Seq<char>>,
    pub config: Seq<(Seq<char>, StorageV)>,
    pub inited: bool,
}

/// The abstract values of a vector of strings.
pub open spec fn strings_v(s: Seq<String>) -> Seq<Seq<char>>
    decreases s,
{
    if s.len() == 0 {
        Seq::empty()
    } else {
        strings_v(s.drop_last()).push(s.last()@)
    }
}

pub broadcast proof fn lemma_strings_v(s: Seq<String>)
    ensures
        (#[trigger] strings_v(s)).len() == s.len(),
        forall|i: int| 0 <= i < s.len() ==> strings_v(s)[i] == (#[trigger] s[i])@,
    decreases s,
{
    if s.len() > 0 {
        lemma_strings_v(s.drop_last());
        assert forall|i: int| 0 <= i < s.len() implies strings_v(s)[i] == (#[trigger] s[i])@ by {
            if i < s.len() - 1 {
                assert(s.drop_last()[i] == s[i]);
            } else {
                assert(s[i] == s.last());
            }
        }
    }
}

/// The abstract states of a vector of named sections.
pub open spec fn sections_v(s: Seq<(String, ConfigStoragePy)>) -> Seq<(Seq<char>, StorageV)>
    decreases s,
{
    if s.len() == 0 {
        Seq::empty()
    } else {
        sections_v(s.drop_last()).push((s.last().0@, s.last().1@))
    }
}

pub broadcast proof fn lemma_sections_v(s: Seq<(String, ConfigStoragePy)>)
    ensures
        (#[trigger] sections_v(s)).len() == s.len(),
        forall|i: int| 0 <= i < s.len() ==> sections_v(s)[i] == ((#[trigger] s[i]).0@, s[i].1@),
    decreases s,
{
    if s.len() > 0 {
        lemma_sections_v(s.drop_last());
        assert forall|i: int|
            0 <= i < s.len() implies sections_v(s)[i] == ((#[trigger] s[i]).0@, s[i].1@) by {
            if i < s.len() - 1 {
                assert(s.drop_last()[i] == s[i]);
            } else {
                assert(s[i] == s.last());
            }
        }
    }
}

impl View for PluginManifestPy {
    type V = ManifestV;

    open spec fn view(&self) -> ManifestV {
        ManifestV {
            plugin_id: self.plugin_id@,
            name: self.name@,
            version: self.version@,
            description: match self.description {
                Option::Some(ref d) => Option::Some(d@),
                Option::None => Option::None,
            },
            authors: strings_v(self.authors@),
            homepage: match self.homepage {
                Option::Some(ref h) => Option::Some(h@),
                Option::None => Option::None,
            },
            config: sections_v(self.config@),
            inited: self.inited,
        }
    }
}

/// How a manifest takes a parsed config file: every section whose name maps
/// to a table in the file is bound to that table; a section the file omits
/// is bound to the empty table, falling back to its defaults; a section
/// whose name maps to anything else is left untouched. The manifest counts
/// as bound afterwards.
pub open spec fn manifest_init(m: ManifestV, t: Seq<(Seq<char>, ItemV)>) -> ManifestV {
    ManifestV {
        inited: true,
        config: Seq::new(
            m.config.len(),
            |i: int|
                (
                    m.config[i].0,
                    match tbl_get(t, m.config[i].0) {
                        Option::Some(ItemV::Dict(es)) => storage_read(m.config[i].1, es),
                        Option::Some(_) => m.config[i].1,
                        Option::None => storage_read(m.config[i].1, Seq::empty()),
                    },
                ),
        ),
        ..m
    }
}

/// The root table a manifest writes out: one section per named section,
/// holding that section's declared defaults.
pub open spec fn manifest_save(m: ManifestV) -> Seq<(Seq<char>, ItemV)> {
    Seq::new(
        m.config.len(),
        |i: int| (m.config[i].0, ItemV::Dict(as_toml_keys(m.config[i].1.keys, true))),
    )
}

/// The authors joined with commas.
pub open spec fn authors_join(s: Seq<Seq<char>>) -> Seq<char>
    decreases s.len(),
{
    if s.len() == 0 {
        Seq::empty()
    } else if s.len() == 1 {
        s[0]
    } else {
        s[0] + ", "@ + authors_join(s.subrange(1, s.len() as int))
    }
}

/// The comment header of a generated plugin config file.
pub open spec fn manifest_header(m: ManifestV) -> Seq<char> {
    "# plugin "@ + m.name + " ("@ + m.plugin_id + ") config\n# plugin version: "@ + m.version
        + "\n# plugin authors: "@ + authors_join(m.authors) + "\n# shenbot version: "@ + "2.0.1"@
        + "\n# ica api version: "@ + "1.6.0"@ + "\n# tailchat api version: "@ + "1.1.0"@
        + "\n\n"@
}

impl PluginManifestPy {
    /// Whether section names are distinct and every section is internally
    /// well formed.
    pub open spec fn wf(self) -> bool {
        &&& tbl_distinct(self@.config)
        &&& forall|i: int| 0 <= i < self@.config.len() ==> tbl_distinct(
            (#[trigger] self@.config[i]).1.keys,
        )
    }

    /// Whether every section holds recordable values.
    pub open spec fn values_ok(self) -> bool {
        forall|i: int| 0 <= i < self@.config.len() ==> slots_ok((#[trigger] self@.config[i]).1.keys)
    }

    /// A manifest with the given identity and sections, nothing bound yet.
    pub fn new(
        plugin_id: String,
        name: String,
        version: String,
        description: Option<String>,
        config: Vec<(String, ConfigStoragePy)>,
        authors: Vec<String>,
        homepage: Option<String>,
    ) -> (r: Self)
        ensures
            r@.plugin_id == plugin_id@,
            r@.name == name@,
            r@.version == version@,
            r@.authors == strings_v(authors@),
            r@.config == sections_v(config@),
            !r@.inited,
    {
        Self { plugin_id, name, version, description, authors, homepage, config, inited: false }
    }

    /// The name of this plugin's config file: its id with the config
    /// extension.
    pub fn config_file_name(&self) -> (r: String)
        ensures
            r@ == self@.plugin_id + ".toml"@,
    {
        let mut s = String::new();
        push_str(&mut s, self.plugin_id.as_str());
        push_str(&mut s, ".toml");
        s
    }

    /// Whether this plugin needs a config file: it declares at least one
    /// configuration section.
    pub fn need_config_file(&self) -> (r: bool)
        ensures
            r == (self@.config.len() > 0),
    {
        proof {
            lemma_sections_v(self.config@);
        }
        self.config.len() > 0
    }

    /// Bind a parsed config file to every section, with the empty table as
    /// the fallback for sections the file omits.
    pub fn init_with_toml(&mut self, cfg: &Vec<(String, ConfigItem)>)
        requires
            old(self).wf(),
        ensures
            final(self).wf(),
            final(self)@ == manifest_init(old(self)@, entries_v(cfg@)),
    {
        proof {
            lemma_sections_v(self.config@);
        }
        let ghost full = self@.config;
        let ghost tv = entries_v(cfg@);
        let ghost expect = manifest_init(self@, tv);
        let mut new_config: Vec<(String, ConfigStoragePy)> = Vec::new();
        let mut i: usize = 0;
        while i < self.config.len()
            invariant
                i <= self.config@.len(),
                full == sections_v(self.config@),
                full.len() == self.config@.len(),
                forall|j: int|
                    0 <= j < self.config@.len() ==> full[j] == ((#[trigger] self.config@[j]).0@,
                    self.config@[j].1@),
                forall|j: int|
                    0 <= j < self.config@.len() ==> (#[trigger] self.config@[j]).1.wf(),
                tv == entries_v(cfg@),
                expect.config.len() == full.len(),
                forall|j: int|
                    0 <= j < full.len() ==> (#[trigger] expect.config[j]) == (
                    full[j].0,
                    match tbl_get(tv, full[j].0) {
                        Option::Some(ItemV::Dict(es)) => storage_read(full[j].1, es),
                        Option::Some(_) => full[j].1,
                        Option::None => storage_read(full[j].1, Seq::empty()),
                    },
                ),
                new_config@.len() == i,
                forall|j: int|
                    0 <= j < i ==> ((#[trigger] new_config@[j]).0@, new_config@[j].1@)
                        == expect.config[j] && new_config@[j].1.wf(),
            decreases self.config@.len() - i,
        {
            let (k, storage) = &self.config[i];
            let mut updated = storage.clone();
            match crate::config::table_get(cfg, k.as_str()) {
                Some(v) => {
                    match v {
                        ConfigItem::Dict(es) => {
                            proof {
                                crate::config::lemma_entries_v(es@);
                                assert(item_v(*v) == ItemV::Dict(entries_v(es@)));
                            }
                            updated.read_toml(es);
                        },
                        _ => {
                            proof {
                                assert(!(item_v(*v) is Dict));
                            }
                        },
                    }
                },
                None => {
                    let empty: Vec<(String, ConfigItem)> = Vec::new();
                    proof {
                        crate::config::lemma_entries_v(empty@);
                        assert(entries_v(empty@) =~= Seq::<(Seq<char>, ItemV)>::empty());
                    }
                    updated.read_toml(&empty);
                },
            }
            new_config.push((k.clone(), updated));
            i = i + 1;
        }
        self.config = new_config;
        self.inited = true;
        proof {
            lemma_sections_v(self.config@);
            assert forall|j: int|
                0 <= j < self.config@.len() implies sections_v(self.config@)[j]
                == expect.config[j] by {
                assert(((self.config@[j]).0@, self.config@[j].1@) == expect.config[j]);
            }
            assert(sections_v(self.config@) =~= expect.config);
            assert(final(self)@ =~= expect);
        }
    }

    /// Bind the defaults to every section: the same as binding an empty
    /// file table.
    pub fn init_with_default(&mut self)
        requires
            old(self).wf(),
        ensures
            final(self).wf(),
            final(self)@ == manifest_init(old(self)@, Seq::empty()),
    {
        let empty: Vec<(String, ConfigItem)> = Vec::new();
        proof {
            crate::config::lemma_entries_v(empty@);
            assert(entries_v(empty@) =~= Seq::<(Seq<char>, ItemV)>::empty());
        }
        self.init_with_toml(&empty);
        proof {
            let e = Seq::<(Seq<char>, ItemV)>::empty();
            assert forall|i: int|
                0 <= i < old(self)@.config.len() implies manifest_init(old(self)@, e).config[i]
                == manifest_init(old(self)@, entries_v(empty@)).config[i] by {
                crate::config::lemma_tbl_get_absent(e, old(self)@.config[i].0);
            }
            assert(manifest_init(old(self)@, e).config =~= manifest_init(
                old(self)@,
                entries_v(empty@),
            ).config);
            assert(manifest_init(old(self)@, e) =~= manifest_init(
                old(self)@,
                entries_v(empty@),
            ));
        }
    }

    /// The root table to save: one section of defaults per declared
    /// section.
    pub fn save_to_toml(&self) -> (r: Vec<(String, ConfigItem)>)
        ensures
            entries_v(r@) == manifest_save(self@),
    {
        proof {
            lemma_sections_v(self.config@);
        }
        let ghost full = self@.config;
        let mut out: Vec<(String, ConfigItem)> = Vec::new();
        let mut i: usize = 0;
        while i < self.config.len()
            invariant
                i <= self.config@.len(),
                full == sections_v(self.config@),
                full.len() == self.config@.len(),
                forall|j: int|
                    0 <= j < self.config@.len() ==> full[j] == ((#[trigger] self.config@[j]).0@,
                    self.config@[j].1@),
                entries_v(out@).len() == i,
                forall|j: int|
                    0 <= j < i ==> #[trigger] entries_v(out@)[j] == (
                    full[j].0,
                    ItemV::Dict(as_toml_keys(full[j].1.keys, true)),
                ),
            decreases self.config@.len() - i,
        {
            let (k, storage) = &self.config[i];
            let table = storage.as_toml(true);
            let ghost old_out = out@;
            out.push((k.clone(), ConfigItem::Dict(table)));
            proof {
                crate::config::lemma_entries_v(out@);
                crate::config::lemma_entries_v(old_out);
                assert(out@.drop_last() =~= old_out);
                assert forall|j: int|
                    0 <= j < i + 1 implies #[trigger] entries_v(out@)[j] == (
                    full[j].0,
                    ItemV::Dict(as_toml_keys(full[j].1.keys, true)),
                ) by {
                    if j < i {
                        assert(entries_v(out@)[j] == entries_v(old_out)[j]);
                    } else {
                        assert(entries_v(out@)[j] == (out@.last().0@, item_v(out@.last().1)));
                    }
                }
            }
            i = i + 1;
        }
        proof {
            assert(entries_v(out@) =~= manifest_save(self@));
        }
        out
    }

    /// The whole config file to save: the commented header, then the
    /// declared defaults of every section.
    pub fn save_cfg_as_string(&self) -> (r: String)
        requires
            self.wf(),
            self.values_ok(),
        ensures
            r@ == manifest_header(self@) + doc_text(manifest_save(self@)),
    {
        let mut s = String::new();
        push_str(&mut s, "# plugin ");
        push_str(&mut s, self.name.as_str());
        push_str(&mut s, " (");
        push_str(&mut s, self.plugin_id.as_str());
        push_str(&mut s, ") config\n# plugin version: ");
        push_str(&mut s, self.version.as_str());
        push_str(&mut s, "\n# plugin authors: ");
        proof {
            lemma_strings_v(self.authors@);
        }
        let mut i: usize = 0;
        while i < self.authors.len()
            invariant
                i <= self.authors@.len(),
                strings_v(self.authors@).len() == self.authors@.len(),
                forall|j: int|
                    0 <= j < self.authors@.len() ==> strings_v(self.authors@)[j] == (
                    #[trigger] self.authors@[j])@,
                s@ == old_header_prefix(self@) + authors_prefix(
                    strings_v(self.authors@),
                    i as int,
                ),
            decreases self.authors@.len() - i,
        {
            if i > 0 {
                push_str(&mut s, ", ");
            }
            push_str(&mut s, self.authors[i].as_str());
            proof {
                lemma_authors_prefix_step(strings_v(self.authors@), i as int);
            }
            i = i + 1;
        }
        proof {
            lemma_authors_prefix_full(strings_v(self.authors@));
        }
        push_str(&mut s, "\n# shenbot version: ");
        push_str(&mut s, host_version());
        push_str(&mut s, "\n# ica api version: ");
        push_str(&mut s, ica_api_version());
        push_str(&mut s, "\n# tailchat api version: ");
        push_str(&mut s, tailchat_api_version());
        push_str(&mut s, "\n\n");
        let table = self.save_to_toml();
        proof {
            lemma_manifest_save_doc_ok(self@);
        }
        let body = table_to_text(&table);
        push_str(&mut s, body.as_str());
        proof {
            assert(s@ =~= manifest_header(self@) + doc_text(manifest_save(self@)));
        }
        s
    }

    /// The config file text; a convenience alias used by plugins.
    pub fn config_str(&self) -> (r: String)
        requires
            self.wf(),
            self.values_ok(),
        ensures
            r@ == manifest_header(self@) + doc_text(manifest_save(self@)),
    {
        self.save_cfg_as_string()
    }

    /// A short description of the manifest: its id, name and version.
    pub fn describe(&self) -> (r: String)
        ensures
            r@ == "PluginManifest { plugin_id: "@ + self@.plugin_id + ", name: "@ + self@.name
                + ", version: "@ + self@.version + " }"@,
    {
        let mut s = String::new();
        push_str(&mut s, "PluginManifest { plugin_id: ");
        push_str(&mut s, self.plugin_id.as_str());
        push_str(&mut s, ", name: ");
        push_str(&mut s, self.name.as_str());
        push_str(&mut s, ", version: ");
        push_str(&mut s, self.version.as_str());
        push_str(&mut s, " }");
        s
    }
}

/// The header text up to and including the authors label.
pub open spec fn old_header_prefix(m: ManifestV) -> Seq<char> {
    "# plugin "@ + m.name + " ("@ + m.plugin_id + ") config\n# plugin version: "@ + m.version
        + "\n# plugin authors: "@
}

/// The first `i` authors joined with commas.
pub open spec fn authors_prefix(s: Seq<Seq<char>>, i: int) -> Seq<char> {
    authors_join(s.subrange(0, i))
}

proof fn lemma_authors_prefix_step(s: Seq<Seq<char>>, i: int)
    requires
        0 <= i < s.len(),
    ensures
        i == 0 ==> authors_prefix(s, i + 1) == authors_prefix(s, i) + s[i],
        i > 0 ==> authors_prefix(s, i + 1) == authors_prefix(s, i) + ", "@ + s[i],
{
    lemma_authors_join_push(s.subrange(0, i), s[i]);
    assert(s.subrange(0, i + 1) =~= s.subrange(0, i).push(s[i]));
    if i == 0 {
        assert(s.subrange(0, 0) =~= Seq::<Seq<char>>::empty());
        assert(authors_join(Seq::<Seq<char>>::empty()) =~= Seq::<char>::empty());
        assert(authors_prefix(s, 1) =~= authors_prefix(s, 0) + s[0]);
    }
}

proof fn lemma_authors_prefix_full(s: Seq<Seq<char>>)
    ensures
        authors_prefix(s, s.len() as int) == authors_join(s),
{
    assert(s.subrange(0, s.len() as int) =~= s);
}

/// Joining one more author appends a comma and the name.
proof fn lemma_authors_join_push(s: Seq<Seq<char>>, x: Seq<char>)
    ensures
        authors_join(s.push(x)) == if s.len() == 0 {
            x
        } else {
            authors_join(s) + ", "@ + x
        },
    decreases s.len(),
{
    let p = s.push(x);
    if s.len() == 0 {
        assert(p.len() == 1);
        assert(p[0] == x);
        assert(authors_join(p) =~= x);
    } else {
        assert(p[0] == s[0]);
        let rest = s.subrange(1, s.len() as int);
        assert(p.subrange(1, p.len() as int) =~= rest.push(x));
        lemma_authors_join_push(rest, x);
        if s.len() == 1 {
            assert(rest.len() == 0);
            assert(authors_join(p) =~= authors_join(s) + ", "@ + x);
        } else {
            assert(authors_join(p) =~= authors_join(s) + ", "@ + x);
        }
    }
}

/// What a manifest saves is a printable document.
pub proof fn lemma_manifest_save_doc_ok(m: ManifestV)
    requires
        tbl_distinct(m.config),
        forall|i: int| 0 <= i < m.config.len() ==> tbl_distinct((#[trigger] m.config[i]).1.keys),
        forall|i: int| 0 <= i < m.config.len() ==> slots_ok((#[trigger] m.config[i]).1.keys),
    ensures
        doc_ok(manifest_save(m)),
{
    let t = manifest_save(m);
    assert forall|i: int, j: int| 0 <= i < j < t.len() implies (#[trigger] t[i]).0 != (
    #[trigger] t[j]).0 by {
        assert(t[i].0 == m.config[i].0 && t[j].0 == m.config[j].0);
    }
    assert forall|i: int| 0 <= i < t.len() implies root_entry_ok((#[trigger] t[i]).1) by {
        let keys = m.config[i].1.keys;
        crate::config::lemma_as_toml_keys(keys, true);
        crate::toml_text::lemma_as_toml_values_ok(keys, true);
        assert(t[i].1 == ItemV::Dict(as_toml_keys(keys, true)));
    }
    crate::toml_text::lemma_doc_ok_from_entries(t);
}

/// The manifest's forerunner: a plugin's declared identity and sections,
/// without the bound-state flag. Kept for plugins written against the older
/// declaration shape.
#[derive(Debug)]
pub struct PluginDefinePy {
    /// The plugin's stable identifier.
    pub plugin_id: String,
    /// The plugin's display name.
    pub name: String,
    /// The plugin's version.
    pub version: String,
    /// An optional description.
    pub description: Option<String>,
    /// The plugin's authors.
    pub authors: Vec<String>,
    /// An optional home page.
    pub homepage: Option<String>,
    /// The named configuration sections.
    pub config: Vec<(String, ConfigStoragePy)>,
}

impl PluginDefinePy {
    /// A declaration with the given identity and sections.
    pub fn new(
        plugin_id: String,
        name: String,
        version: String,
        description: Option<String>,
        config: Vec<(String, ConfigStoragePy)>,
        authors: Vec<String>,
        homepage: Option<String>,
    ) -> (r: Self)
        ensures
            r.plugin_id@ == plugin_id@,
            r.name@ == name@,
            r.version@ == version@,
            strings_v(r.authors@) == strings_v(authors@),
            sections_v(r.config@) == sections_v(config@),
    {
        Self { plugin_id, name, version, description, authors, homepage, config }
    }

    /// The declaration as a manifest, nothing bound yet.
    pub fn into_manifest(self) -> (r: PluginManifestPy)
        ensures
            r@.plugin_id == self.plugin_id@,
            r@.name == self.name@,
            r@.version == self.version@,
            r@.config == sections_v(self.config@),
            !r@.inited,
    {
        let PluginDefinePy { plugin_id, name, version, description, authors, homepage, config } =
            self;
        PluginManifestPy::new(plugin_id, name, version, description, config, authors, homepage)
    }

    /// A short description of the declaration.
    pub fn describe(&self) -> (r: String)
        ensures
            r@ == "PluginDefine { plugin_id: "@ + self.plugin_id@ + ", name: "@ + self.name@
                + ", version: "@ + self.version@ + " }"@,
    {
        let mut s = String::new();
        push_str(&mut s, "PluginDefine { plugin_id: ");
        push_str(&mut s, self.plugin_id.as_str());
        push_str(&mut s, ", name: ");
        push_str(&mut s, self.name.as_str());
        push_str(&mut s, ", version: ");
        push_str(&mut s, self.version.as_str());
        push_str(&mut s, " }");
        s
    }
}

} // verus!
