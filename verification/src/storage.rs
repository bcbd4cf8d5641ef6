//! The plugin registry: all loaded plugins keyed by id, the enable/disable
//! record persisted to the status file, and the reconciliation between the
//! two.

use vstd::prelude::*;

use crate::config::{ConfigItem, ItemV, entries_v, tbl_distinct, tbl_get, tbl_has, tbl_upsert};
use crate::plugin::{PluginV, PyPlugin, hash_of};
use crate::strutil::push_str;
use crate::toml_text::{doc_text, parse_doc};

verus! {

broadcast use vstd::std_specs::vec::group_vec_axioms;

/// The fixed name of the status file.
pub fn status_file_name() -> (r: &'static str)
    ensures
        r@ == "plugins.toml"@,
{
    "plugins.toml"
}

/// The enable/disable record as persisted: one flag per plugin id.
#[derive(Debug)]
pub struct PluginStatus {
    /// The recorded flags, ids distinct.
    pub plugins: Vec<(String, bool)>,
}

/// The abstract value of the record.
pub open spec fn status_v(s: Seq<(String, bool)>) -> Seq<(Seq<char>, bool)>
    decreases s,
{
    if s.len() == 0 {
        Seq::empty()
    } else {
        status_v(s.drop_last()).push((s.last().0@, s.last().1))
    }
}

pub broadcast proof fn lemma_status_v(s: Seq<(String, bool)>)
    ensures
        (#[trigger] status_v(s)).len() == s.len(),
        forall|i: int| 0 <= i < s.len() ==> status_v(s)[i] == ((#[trigger] s[i]).0@, s[i].1),
    decreases s,
{
    if s.len() > 0 {
        lemma_status_v(s.drop_last());
        assert forall|i: int|
            0 <= i < s.len() implies status_v(s)[i] == ((#[trigger] s[i]).0@, s[i].1) by {
            if i < s.len() - 1 {
                assert(s.drop_last()[i] == s[i]);
            } else {
                assert(s[i] == s.last());
            }
        }
    }
}

impl View for PluginStatus {
    type V = Seq<(Seq<char>, bool)>;

    open spec fn view(&self) -> Seq<(Seq<char>, bool)> {
        status_v(self.plugins@)
    }
}

/// The abstract value of the registry.
pub open spec fn plugins_v(s: Seq<(String, PyPlugin)>) -> Seq<(Seq<char>, PluginV)>
    decreases s,
{
    if s.len() == 0 {
        Seq::empty()
    } else {
        plugins_v(s.drop_last()).push((s.last().0@, s.last().1@))
    }
}

pub broadcast proof fn lemma_plugins_v(s: Seq<(String, PyPlugin)>)
    ensures
        (#[trigger] plugins_v(s)).len() == s.len(),
        forall|i: int| 0 <= i < s.len() ==> plugins_v(s)[i] == ((#[trigger] s[i]).0@, s[i].1@),
    decreases s,
{
    if s.len() > 0 {
        lemma_plugins_v(s.drop_last());
        assert forall|i: int|
            0 <= i < s.len() implies plugins_v(s)[i] == ((#[trigger] s[i]).0@, s[i].1@) by {
            if i < s.len() - 1 {
                assert(s.drop_last()[i] == s[i]);
            } else {
                assert(s[i] == s.last());
            }
        }
    }
}

/// The record after copying every plugin's flag into it, adding ids it did
/// not hold.
pub open spec fn sync_from(
    st: Seq<(Seq<char>, bool)>,
    plugs: Seq<(Seq<char>, PluginV)>,
) -> Seq<(Seq<char>, bool)>
    decreases plugs.len(),
{
    if plugs.len() == 0 {
        st
    } else {
        tbl_upsert(sync_from(st, plugs.drop_last()), plugs.last().0, plugs.last().1.enabled)
    }
}

/// The registry after the record overrides its flags: a recorded id takes
/// the recorded flag; an unrecorded id keeps its flag.
pub open spec fn sync_to_plugins(
    st: Seq<(Seq<char>, bool)>,
    plugs: Seq<(Seq<char>, PluginV)>,
) -> Seq<(Seq<char>, PluginV)> {
    Seq::new(
        plugs.len(),
        |i: int|
            (
                plugs[i].0,
                match tbl_get(st, plugs[i].0) {
                    Option::Some(b) => PluginV { enabled: b, ..plugs[i].1 },
                    Option::None => plugs[i].1,
                },
            ),
    )
}

/// The record after the registry's unrecorded ids are added to it at their
/// current flags.
pub open spec fn sync_to_status(
    st: Seq<(Seq<char>, bool)>,
    plugs: Seq<(Seq<char>, PluginV)>,
) -> Seq<(Seq<char>, bool)>
    decreases plugs.len(),
{
    if plugs.len() == 0 {
        st
    } else {
        let rest = sync_to_status(st, plugs.drop_last());
        if tbl_has(st, plugs.last().0) {
            rest
        } else {
            tbl_upsert(rest, plugs.last().0, plugs.last().1.enabled)
        }
    }
}

/// The record as a config table: one section of flags.
pub open spec fn status_table(st: Seq<(Seq<char>, bool)>) -> Seq<(Seq<char>, ItemV)> {
    seq![
        (
            "plugins"@,
            ItemV::Dict(Seq::new(st.len(), |i: int| (st[i].0, ItemV::Bool(st[i].1)))),
        ),
    ]
}

/// The flags held by a parsed config table: the members of its section of
/// flags, entries of any other shape left out.
pub open spec fn status_of_table(t: Seq<(Seq<char>, ItemV)>) -> Seq<(Seq<char>, bool)> {
    match tbl_get(t, "plugins"@) {
        Option::Some(ItemV::Dict(es)) => bools_of(es),
        _ => Seq::empty(),
    }
}

/// The boolean entries of a table, in order.
pub open spec fn bools_of(es: Seq<(Seq<char>, ItemV)>) -> Seq<(Seq<char>, bool)>
    decreases es.len(),
{
    if es.len() == 0 {
        Seq::empty()
    } else {
        let rest = bools_of(es.drop_last());
        match es.last().1 {
            ItemV::Bool(b) => rest.push((es.last().0, b)),
            _ => rest,
        }
    }
}

/// A table of flags reads back as exactly those flags.
pub proof fn lemma_bools_of_id(st: Seq<(Seq<char>, bool)>)
    ensures
        bools_of(Seq::new(st.len(), |i: int| (st[i].0, ItemV::Bool(st[i].1)))) == st,
{
    lemma_bools_of_id_rec(st, st.len() as int);
    assert(Seq::new(st.len(), |i: int| (st[i].0, ItemV::Bool(st[i].1))).subrange(
        0,
        st.len() as int,
    ) =~= Seq::new(st.len(), |i: int| (st[i].0, ItemV::Bool(st[i].1))));
    assert(st.subrange(0, st.len() as int) =~= st);
}

proof fn lemma_bools_of_id_rec(st: Seq<(Seq<char>, bool)>, n: int)
    requires
        0 <= n <= st.len(),
    ensures
        bools_of(
            Seq::new(st.len(), |i: int| (st[i].0, ItemV::Bool(st[i].1))).subrange(0, n),
        ) == st.subrange(0, n),
    decreases n,
{
    let full = Seq::new(st.len(), |i: int| (st[i].0, ItemV::Bool(st[i].1)));
    if n > 0 {
        lemma_bools_of_id_rec(st, n - 1);
        assert(full.subrange(0, n).drop_last() =~= full.subrange(0, n - 1));
        assert(full.subrange(0, n).last() == full[n - 1]);
        assert(bools_of(full.subrange(0, n)) =~= st.subrange(0, n));
    } else {
        assert(full.subrange(0, 0) =~= Seq::<(Seq<char>, ItemV)>::empty());
        assert(st.subrange(0, 0) =~= Seq::<(Seq<char>, bool)>::empty());
    }
}

/// The two comment lines at the head of the status file.
pub fn status_header_line1() -> (r: &'static str)
    ensures
        r@ == "# Generated by the plugin host; the enable flags below are rewritten on sync."@,
{
    "# Generated by the plugin host; the enable flags below are rewritten on sync."
}

pub fn status_header_line2() -> (r: &'static str)
    ensures
        r@ == "# Edit with care: unknown ids are kept, other lines are replaced."@,
{
    "# Edit with care: unknown ids are kept, other lines are replaced."
}

/// The status file's comment header, as lines.
pub open spec fn status_header_lines() -> Seq<Seq<char>> {
    seq![
        "# Generated by the plugin host; the enable flags below are rewritten on sync."@,
        "# Edit with care: unknown ids are kept, other lines are replaced."@,
    ]
}

/// Reconciling earlier plugins never changes the flag recorded for a
/// later, distinct id, and keeps the record's ids distinct.
pub proof fn lemma_sync_to_status_get(
    st: Seq<(Seq<char>, bool)>,
    pre: Seq<(Seq<char>, PluginV)>,
    k: Seq<char>,
)
    requires
        tbl_distinct(st),
        forall|j: int| 0 <= j < pre.len() ==> (#[trigger] pre[j]).0 != k,
    ensures
        tbl_distinct(sync_to_status(st, pre)),
        tbl_get(sync_to_status(st, pre), k) == tbl_get(st, k),
    decreases pre.len(),
{
    if pre.len() > 0 {
        let pd = pre.drop_last();
        assert(forall|j: int| 0 <= j < pd.len() ==> (#[trigger] pd[j]).0 != k) by {
            assert(forall|j: int| 0 <= j < pd.len() ==> pd[j] == pre[j]);
        }
        lemma_sync_to_status_get(st, pd, k);
        if !tbl_has(st, pre.last().0) {
            crate::config::lemma_tbl_upsert(
                sync_to_status(st, pd),
                pre.last().0,
                pre.last().1.enabled,
            );
            assert(pre.last().0 != k) by {
                assert(pre[pre.len() - 1] == pre.last());
            }
        }
    }
}

impl PluginStatus {
    /// Whether the recorded ids are distinct.
    pub open spec fn wf(self) -> bool {
        tbl_distinct(self@)
    }

    /// An empty record.
    pub fn new_empty() -> (r: Self)
        ensures
            r@.len() == 0,
            r.wf(),
    {
        let r = Self { plugins: Vec::new() };
        proof {
            lemma_status_v(r.plugins@);
        }
        r
    }

    /// A human-readable word for one flag.
    pub fn fmt_bool(b: bool) -> (r: String)
        ensures
            b ==> r@ == "enabled"@,
            !b ==> r@ == "disabled"@,
    {
        let mut s = String::new();
        if b {
            push_str(&mut s, "enabled");
        } else {
            push_str(&mut s, "disabled");
        }
        s
    }

    /// The recorded flag of one id.
    pub fn get(&self, id: &str) -> (r: Option<bool>)
        ensures
            r == tbl_get(self@, id@),
    {
        proof {
            lemma_status_v(self.plugins@);
        }
        let mut i: usize = 0;
        while i < self.plugins.len()
            invariant
                i <= self.plugins@.len(),
                status_v(self.plugins@).len() == self.plugins@.len(),
                forall|j: int|
                    0 <= j < self.plugins@.len() ==> #[trigger] status_v(self.plugins@)[j] == (
                    self.plugins@[j].0@,
                    self.plugins@[j].1,
                ),
                forall|j: int| 0 <= j < i ==> (#[trigger] status_v(self.plugins@)[j]).0 != id@,
            decreases self.plugins@.len() - i,
        {
            let (k, b) = &self.plugins[i];
            if crate::strutil::string_eq_str(k, id) {
                proof {
                    crate::config::lemma_tbl_get_found(status_v(self.plugins@), id@, i as int);
                }
                return Some(*b);
            }
            i = i + 1;
        }
        proof {
            crate::config::lemma_tbl_get_absent(status_v(self.plugins@), id@);
        }
        None
    }

    /// Record one flag, keeping ids distinct.
    pub fn set(&mut self, id: &str, flag: bool)
        requires
            old(self).wf(),
        ensures
            final(self).wf(),
            final(self)@ == tbl_upsert(old(self)@, id@, flag),
    {
        proof {
            lemma_status_v(self.plugins@);
            crate::config::lemma_tbl_upsert(self@, id@, flag);
        }
        let ghost orig = self@;
        let mut i: usize = 0;
        while i < self.plugins.len()
            invariant
                i <= self.plugins@.len(),
                orig == old(self)@,
                tbl_distinct(orig),
                orig == status_v(self.plugins@),
                orig.len() == self.plugins@.len(),
                forall|j: int|
                    0 <= j < self.plugins@.len() ==> orig[j] == ((#[trigger] self.plugins@[j]).0@,
                    self.plugins@[j].1),
                forall|j: int| 0 <= j < i ==> (#[trigger] orig[j]).0 != id@,
            decreases self.plugins@.len() - i,
        {
            let hit = {
                let (k, _) = &self.plugins[i];
                crate::strutil::string_eq_str(k, id)
            };
            if hit {
                let ghost pre = self.plugins@;
                self.plugins.set(i, (id.to_owned(), flag));
                proof {
                    lemma_status_v(self.plugins@);
                    crate::config::lemma_tbl_upsert_update(orig, id@, i as int);
                    assert forall|j: int|
                        0 <= j < self.plugins@.len() implies status_v(self.plugins@)[j]
                        == orig.update(i as int, (id@, flag))[j] by {
                        assert(status_v(self.plugins@)[j] == ((self.plugins@[j]).0@,
                        self.plugins@[j].1));
                        if j != i {
                            assert(self.plugins@[j] == pre[j]);
                        }
                    }
                    assert(status_v(self.plugins@) =~= orig.update(i as int, (id@, flag)));
                }
                return ;
            }
            i = i + 1;
        }
        let ghost pre = self.plugins@;
        self.plugins.push((id.to_owned(), flag));
        proof {
            lemma_status_v(self.plugins@);
            crate::config::lemma_tbl_upsert_push(orig, id@);
            assert forall|j: int|
                0 <= j < self.plugins@.len() implies status_v(self.plugins@)[j] == orig.push(
                (id@, flag),
            )[j] by {
                assert(status_v(self.plugins@)[j] == ((self.plugins@[j]).0@, self.plugins@[j].1));
                if j < pre.len() {
                    assert(self.plugins@[j] == pre[j]);
                }
            }
            assert(status_v(self.plugins@) =~= orig.push((id@, flag)));
        }
    }

    /// Copy every plugin's flag into the record, adding missing ids.
    pub fn sync_from_storage(&mut self, storage: &PyPluginStorage)
        requires
            old(self).wf(),
        ensures
            final(self).wf(),
            final(self)@ == sync_from(old(self)@, storage@),
    {
        proof {
            lemma_plugins_v(storage.storage@);
        }
        let ghost plugs = storage@;
        let mut i: usize = 0;
        while i < storage.storage.len()
            invariant
                i <= storage.storage@.len(),
                plugs == plugins_v(storage.storage@),
                plugs.len() == storage.storage@.len(),
                forall|j: int|
                    0 <= j < storage.storage@.len() ==> plugs[j] == ((
                    #[trigger] storage.storage@[j]).0@, storage.storage@[j].1@),
                self.wf(),
                self@ == sync_from(old(self)@, plugs.subrange(0, i as int)),
            decreases storage.storage@.len() - i,
        {
            let ghost pre = plugs.subrange(0, i as int);
            let ghost cur = plugs.subrange(0, i + 1 as int);
            proof {
                assert(cur.drop_last() =~= pre);
                assert(cur.last() == plugs[i as int]);
            }
            let (k, plugin) = &storage.storage[i];
            let flag = plugin.is_enable();
            self.set(k.as_str(), flag);
            i = i + 1;
        }
        proof {
            assert(plugs.subrange(0, plugs.len() as int) =~= plugs);
        }
    }

    /// Override the registry's flags from the record, and add the
    /// registry's unrecorded ids to the record at their current flags.
    pub fn sync_to_storage(&mut self, storage: &mut PyPluginStorage)
        requires
            old(self).wf(),
            tbl_distinct(old(storage)@),
        ensures
            final(self).wf(),
            final(storage)@ == sync_to_plugins(old(self)@, old(storage)@),
            final(self)@ == sync_to_status(old(self)@, old(storage)@),
    {
        proof {
            lemma_plugins_v(storage.storage@);
        }
        let ghost st0 = self@;
        let ghost plugs0 = storage@;
        let ghost expect_p = sync_to_plugins(st0, plugs0);
        let mut i: usize = 0;
        while i < storage.storage.len()
            invariant
                i <= storage.storage@.len(),
                st0 == old(self)@,
                tbl_distinct(st0),
                plugs0 == old(storage)@,
                tbl_distinct(plugs0),
                self.wf(),
                plugs0.len() == storage.storage@.len(),
                expect_p == sync_to_plugins(st0, plugs0),
                expect_p.len() == plugs0.len(),
                // entries not yet visited are unchanged
                forall|j: int|
                    i <= j < storage.storage@.len() ==> ((#[trigger] storage.storage@[j]).0@,
                    storage.storage@[j].1@) == plugs0[j],
                // visited entries carry their reconciled flag
                forall|j: int|
                    0 <= j < i ==> ((#[trigger] storage.storage@[j]).0@, storage.storage@[j].1@)
                        == expect_p[j],
                self@ == sync_to_status(st0, plugs0.subrange(0, i as int)),
            decreases storage.storage@.len() - i,
        {
            let ghost pre = plugs0.subrange(0, i as int);
            let ghost cur = plugs0.subrange(0, i + 1 as int);
            proof {
                assert(cur.drop_last() =~= pre);
                assert(cur.last() == plugs0[i as int]);
            }
            let id = {
                let (k, _) = &storage.storage[i];
                k.clone()
            };
            proof {
                assert(id@ == plugs0[i as int].0);
                assert forall|j: int| 0 <= j < pre.len() implies (#[trigger] pre[j]).0 != id@ by {
                    assert(pre[j] == plugs0[j]);
                }
                lemma_sync_to_status_get(st0, pre, id@);
            }
            match self.get(id.as_str()) {
                Some(flag) => {
                    storage.set_enable_at(i, flag);
                },
                None => {
                    let flag = {
                        let (_, plugin) = &storage.storage[i];
                        plugin.is_enable()
                    };
                    self.set(id.as_str(), flag);
                    proof {
                        crate::config::lemma_tbl_upsert(
                            sync_to_status(st0, pre),
                            id@,
                            flag,
                        );
                    }
                },
            }
            i = i + 1;
        }
        proof {
            assert(plugs0.subrange(0, plugs0.len() as int) =~= plugs0);
            lemma_plugins_v(storage.storage@);
            assert forall|j: int|
                0 <= j < storage.storage@.len() implies plugins_v(storage.storage@)[j]
                == expect_p[j] by {
                assert(((storage.storage@[j]).0@, storage.storage@[j].1@) == expect_p[j]);
            }
            assert(plugins_v(storage.storage@) =~= expect_p);
        }
    }

    /// The status file's full text: the comment header, then the flags as
    /// one config section.
    pub fn to_text(&self) -> (r: String)
        requires
            self.wf(),
        ensures
            r@ == crate::toml_text::join_lines(status_header_lines()) + doc_text(
                status_table(self@),
            ),
    {
        proof {
            lemma_status_v(self.plugins@);
        }
        let mut table: Vec<(String, ConfigItem)> = Vec::new();
        let mut flags: Vec<(String, ConfigItem)> = Vec::new();
        let mut i: usize = 0;
        while i < self.plugins.len()
            invariant
                i <= self.plugins@.len(),
                status_v(self.plugins@).len() == self.plugins@.len(),
                forall|j: int|
                    0 <= j < self.plugins@.len() ==> #[trigger] status_v(self.plugins@)[j] == (
                    self.plugins@[j].0@,
                    self.plugins@[j].1,
                ),
                entries_v(flags@).len() == i,
                forall|j: int|
                    0 <= j < i ==> #[trigger] entries_v(flags@)[j] == (
                    status_v(self.plugins@)[j].0,
                    ItemV::Bool(status_v(self.plugins@)[j].1),
                ),
            decreases self.plugins@.len() - i,
        {
            let (k, b) = &self.plugins[i];
            let ghost old_flags = flags@;
            flags.push((k.clone(), ConfigItem::Bool(*b)));
            proof {
                crate::config::lemma_entries_v(flags@);
                crate::config::lemma_entries_v(old_flags);
                assert(flags@.drop_last() =~= old_flags);
                assert forall|j: int|
                    0 <= j < i + 1 implies #[trigger] entries_v(flags@)[j] == (
                    status_v(self.plugins@)[j].0,
                    ItemV::Bool(status_v(self.plugins@)[j].1),
                ) by {
                    if j < i {
                        assert(entries_v(flags@)[j] == entries_v(old_flags)[j]);
                    } else {
                        assert(entries_v(flags@)[j] == (flags@.last().0@, crate::config::item_v(
                            flags@.last().1,
                        )));
                    }
                }
            }
            i = i + 1;
        }
        let mut section_name = String::new();
        push_str(&mut section_name, "plugins");
        table.push((section_name, ConfigItem::Dict(flags)));
        proof {
            crate::config::lemma_entries_v(table@);
            crate::config::lemma_entries_v(Seq::<(String, ConfigItem)>::empty());
            assert(table@.drop_last() =~= Seq::<(String, ConfigItem)>::empty());
            assert(entries_v(table@) =~= status_table(self@)) by {
                assert(entries_v(table@).len() == 1);
                assert(entries_v(table@)[0] == (table@[0].0@, crate::config::item_v(
                    table@[0].1,
                )));
                reveal_strlit("plugins");
                assert(table@[0].0@ =~= "plugins"@);
                assert(crate::config::item_v(table@[0].1) == ItemV::Dict(entries_v(flags@)));
                assert(entries_v(flags@) =~= Seq::new(
                    self@.len(),
                    |j: int| (self@[j].0, ItemV::Bool(self@[j].1)),
                ));
            }
            lemma_status_table_doc_ok(self@);
        }
        let body = crate::toml_text::table_to_text(&table);
        let mut s = String::new();
        push_str(&mut s, status_header_line1());
        s.push('\n');
        push_str(&mut s, status_header_line2());
        s.push('\n');
        push_str(&mut s, body.as_str());
        proof {
            lemma_join_status_header();
            assert(s@ =~= crate::toml_text::join_lines(status_header_lines()) + doc_text(
                status_table(self@),
            ));
        }
        s
    }

    /// Read a status file's text: the flags in its section of flags, or an
    /// empty record when the text is rejected or holds none.
    pub fn from_text(text: &str) -> (r: Self)
        ensures
            r.wf(),
            match parse_doc(text@) {
                Option::Some(t) => r@ == status_of_table(t),
                Option::None => r@.len() == 0,
            },
    {
        match crate::toml_text::parse_table(text) {
            Err(_) => Self::new_empty(),
            Ok(table) => {
                let mut out = Self::new_empty();
                proof {
                    crate::config::lemma_entries_v(table@);
                }
                match crate::config::table_get(&table, "plugins") {
                    Some(item) => {
                        match item {
                            ConfigItem::Dict(es) => {
                                proof {
                                    crate::config::lemma_entries_v(es@);
                                    assert(crate::config::item_v(*item) == ItemV::Dict(
                                        entries_v(es@),
                                    ));
                                    reveal_strlit("plugins");
                                    crate::config::lemma_tbl_get_is_entry(
                                        entries_v(table@),
                                        "plugins"@,
                                    );
                                    let j = choose|j: int|
                                        0 <= j < entries_v(table@).len() && (
                                        #[trigger] entries_v(table@)[j]) == (
                                        "plugins"@,
                                        ItemV::Dict(entries_v(es@)),
                                        );
                                    assert(crate::toml_text::root_entry_ok(
                                        entries_v(table@)[j].1,
                                    ));
                                    assert(tbl_distinct(entries_v(es@)));
                                }
                                let ghost esv = entries_v(es@);
                                let mut i: usize = 0;
                                while i < es.len()
                                    invariant
                                        i <= es@.len(),
                                        esv == entries_v(es@),
                                        esv.len() == es@.len(),
                                        forall|j: int|
                                            0 <= j < es@.len() ==> esv[j] == ((
                                            #[trigger] es@[j]).0@, crate::config::item_v(
                                                es@[j].1,
                                            )),
                                        tbl_distinct(esv),
                                        out.wf(),
                                        out@ == bools_of(esv.subrange(0, i as int)),
                                    decreases es@.len() - i,
                                {
                                    let ghost pre = esv.subrange(0, i as int);
                                    let ghost cur = esv.subrange(0, i + 1 as int);
                                    proof {
                                        assert(cur.drop_last() =~= pre);
                                        assert(cur.last() == esv[i as int]);
                                    }
                                    let (k, v) = &es[i];
                                    match v {
                                        ConfigItem::Bool(b) => {
                                            out.set(k.as_str(), *b);
                                            proof {
                                                crate::config::lemma_tbl_upsert(
                                                    bools_of(pre),
                                                    k@,
                                                    *b,
                                                );
                                                lemma_bools_upsert_push(pre, esv, i as int);
                                            }
                                        },
                                        _ => {},
                                    }
                                    i = i + 1;
                                }
                                proof {
                                    assert(esv.subrange(0, esv.len() as int) =~= esv);
                                }
                                out
                            },
                            _ => {
                                proof {
                                    reveal_strlit("plugins");
                                    assert(!(crate::config::item_v(*item) is Dict));
                                }
                                out
                            },
                        }
                    },
                    None => {
                        proof {
                            reveal_strlit("plugins");
                        }
                        out
                    },
                }
            },
        }
    }
}

/// When a section's earlier keys are distinct from the next boolean key,
/// recording it is a plain append.
proof fn lemma_bools_upsert_push(
    pre: Seq<(Seq<char>, ItemV)>,
    esv: Seq<(Seq<char>, ItemV)>,
    i: int,
)
    requires
        0 <= i < esv.len(),
        pre == esv.subrange(0, i),
        tbl_distinct(esv),
        esv[i].1 is Bool,
    ensures
        tbl_upsert(bools_of(pre), esv[i].0, esv[i].1->Bool_0) == bools_of(pre).push(
            (esv[i].0, esv[i].1->Bool_0),
        ),
{
    assert forall|j: int|
        0 <= j < bools_of(pre).len() implies (#[trigger] bools_of(pre)[j]).0 != esv[i].0 by {
        lemma_bools_of_members(pre, j);
        let m = choose|m: int| 0 <= m < pre.len() && (#[trigger] pre[m]).0 == bools_of(pre)[j].0;
        assert(esv[m] == pre[m]);
    }
    crate::config::lemma_tbl_upsert_push(bools_of(pre), esv[i].0);
}

/// Every recorded flag's id is one of the section's keys.
proof fn lemma_bools_of_members(es: Seq<(Seq<char>, ItemV)>, j: int)
    requires
        0 <= j < bools_of(es).len(),
    ensures
        exists|m: int| 0 <= m < es.len() && (#[trigger] es[m]).0 == bools_of(es)[j].0,
    decreases es.len(),
{
    if es.len() > 0 {
        let rest = bools_of(es.drop_last());
        match es.last().1 {
            ItemV::Bool(b) => {
                if j < rest.len() {
                    lemma_bools_of_members(es.drop_last(), j);
                    let m = choose|m: int|
                        0 <= m < es.drop_last().len() && (#[trigger] es.drop_last()[m]).0
                            == rest[j].0;
                    assert(es[m] == es.drop_last()[m]);
                } else {
                    assert(es[es.len() - 1].0 == bools_of(es)[j].0);
                }
            },
            _ => {
                lemma_bools_of_members(es.drop_last(), j);
                let m = choose|m: int|
                    0 <= m < es.drop_last().len() && (#[trigger] es.drop_last()[m]).0
                        == bools_of(es)[j].0;
                assert(es[m] == es.drop_last()[m]);
            },
        }
    }
}

/// The flags table is a printable document.
proof fn lemma_status_table_doc_ok(st: Seq<(Seq<char>, bool)>)
    requires
        tbl_distinct(st),
    ensures
        crate::toml_text::doc_ok(status_table(st)),
{
    let t = status_table(st);
    let es = Seq::new(st.len(), |i: int| (st[i].0, ItemV::Bool(st[i].1)));
    assert(tbl_distinct(t)) by {
        assert(t.len() == 1);
    }
    assert forall|i: int|
        0 <= i < t.len() implies crate::toml_text::root_entry_ok((#[trigger] t[i]).1) by {
        assert(t[0].1 == ItemV::Dict(es));
        assert forall|j: int|
            0 <= j < es.len() implies crate::toml_text::value_ok((#[trigger] es[j]).1) by {
            assert(es[j].1 == ItemV::Bool(st[j].1));
        }
        assert forall|a: int, b: int| 0 <= a < b < es.len() implies (#[trigger] es[a]).0 != (
        #[trigger] es[b]).0 by {
            assert(es[a].0 == st[a].0 && es[b].0 == st[b].0);
        }
    }
    crate::toml_text::lemma_doc_ok_from_entries(t);
}

/// The header lines joined match the text the writer emits.
proof fn lemma_join_status_header()
    ensures
        crate::toml_text::join_lines(status_header_lines())
            == "# Generated by the plugin host; the enable flags below are rewritten on sync."@
            + seq!['\n']
            + "# Edit with care: unknown ids are kept, other lines are replaced."@ + seq!['\n'],
{
    let ls = status_header_lines();
    assert(ls.subrange(1, 2) =~= seq![
        "# Edit with care: unknown ids are kept, other lines are replaced."@,
    ]);
    let one = seq!["# Edit with care: unknown ids are kept, other lines are replaced."@];
    assert(one.subrange(1, 1) =~= Seq::<Seq<char>>::empty());
    assert(crate::toml_text::join_lines(Seq::<Seq<char>>::empty()) =~= Seq::<char>::empty());
    assert(crate::toml_text::join_lines(one) =~= one[0] + seq!['\n']);
    assert(one[0] == ls[1]);
    assert(crate::toml_text::join_lines(ls) =~= ls[0] + seq!['\n'] + ls[1] + seq!['\n']);
}

/// The registry of loaded plugins, keyed by id.
#[derive(Debug)]
pub struct PyPluginStorage {
    /// The loaded plugins, ids distinct.
    pub storage: Vec<(String, PyPlugin)>,
}

impl View for PyPluginStorage {
    type V = Seq<(Seq<char>, PluginV)>;

    open spec fn view(&self) -> Seq<(Seq<char>, PluginV)> {
        plugins_v(self.storage@)
    }
}

impl PyPluginStorage {
    /// Whether the registry's ids are distinct and every entry is keyed by
    /// its plugin's id.
    pub open spec fn wf(self) -> bool {
        &&& tbl_distinct(self@)
        &&& forall|i: int| 0 <= i < self@.len() ==> (#[trigger] self@[i]).0
            == self@[i].1.manifest.plugin_id
    }

    /// An empty registry.
    pub fn new() -> (r: Self)
        ensures
            r@.len() == 0,
            r.wf(),
    {
        let r = Self { storage: Vec::new() };
        proof {
            lemma_plugins_v(r.storage@);
        }
        r
    }

    /// Set one entry's flag in place.
    fn set_enable_at(&mut self, i: usize, flag: bool)
        requires
            i < old(self).storage@.len(),
        ensures
            final(self).storage@.len() == old(self).storage@.len(),
            forall|j: int|
                0 <= j < old(self).storage@.len() && j != i ==> final(self).storage@[j] == old(
                    self,
                ).storage@[j],
            (final(self).storage@[i as int]).0 == (old(self).storage@[i as int]).0,
            (final(self).storage@[i as int]).1@ == (PluginV {
                enabled: flag,
                ..(old(self).storage@[i as int]).1@
            }),
    {
        let (k, mut p) = self.storage.remove(i);
        p.set_enable(flag);
        self.storage.insert(i, (k, p));
        proof {
            assert forall|j: int|
                0 <= j < old(self).storage@.len() && j != i implies final(self).storage@[j]
                == old(self).storage@[j] by {
                if j < i {
                    assert(final(self).storage@[j] == old(self).storage@[j]);
                }
            }
        }
    }
}

/// The index of the first registry entry whose plugin was loaded from the
/// given path, or a negative value when none was.
pub open spec fn path_idx(t: Seq<(Seq<char>, PluginV)>, p: Seq<char>) -> int
    decreases t.len(),
{
    if t.len() == 0 {
        -1
    } else if t[0].1.plugin_path == p {
        0
    } else {
        let r = path_idx(t.subrange(1, t.len() as int), p);
        if r == -1 {
            -1
        } else {
            1 + r
        }
    }
}

pub proof fn lemma_path_idx(t: Seq<(Seq<char>, PluginV)>, p: Seq<char>)
    ensures
        path_idx(t, p) == -1 ==> forall|j: int|
            0 <= j < t.len() ==> (#[trigger] t[j]).1.plugin_path != p,
        path_idx(t, p) != -1 ==> 0 <= path_idx(t, p) < t.len() && t[path_idx(
            t,
            p,
        )].1.plugin_path == p && forall|j: int|
            0 <= j < path_idx(t, p) ==> (#[trigger] t[j]).1.plugin_path != p,
    decreases t.len(),
{
    if t.len() > 0 && t[0].1.plugin_path != p {
        let rest = t.subrange(1, t.len() as int);
        lemma_path_idx(rest, p);
        assert(forall|j: int| 0 <= j < rest.len() ==> rest[j] == t[j + 1]);
        let r = path_idx(rest, p);
        if r == -1 {
            assert forall|j: int|
                0 <= j < t.len() implies (#[trigger] t[j]).1.plugin_path != p by {
                if j > 0 {
                    assert(rest[j - 1] == t[j]);
                }
            }
        } else {
            assert(t[1 + r] == rest[r]);
            assert forall|j: int|
                0 <= j < path_idx(t, p) implies (#[trigger] t[j]).1.plugin_path != p by {
                if j > 0 {
                    assert(rest[j - 1] == t[j]);
                }
            }
        }
    }
}

/// What checking a path against the registry found.
#[derive(Debug, Clone, Copy, PartialEq, Eq, Structural)]
pub enum ReloadCheck {
    /// No loaded plugin came from that path.
    NoPlugin,
    /// The on-disk bytes carry the digest already loaded.
    Unchanged,
    /// The on-disk bytes differ from what was loaded.
    Changed,
}

/// The registry after a run of freshly loaded plugins is merged in, keyed
/// by id, a later plugin replacing an earlier one of the same id.
pub open spec fn fold_add(
    t: Seq<(Seq<char>, PluginV)>,
    ps: Seq<PluginV>,
) -> Seq<(Seq<char>, PluginV)>
    decreases ps.len(),
{
    if ps.len() == 0 {
        t
    } else {
        tbl_upsert(fold_add(t, ps.drop_last()), ps.last().manifest.plugin_id, ps.last())
    }
}

/// The abstract values of a vector of plugins.
pub open spec fn plugin_seq_v(s: Seq<PyPlugin>) -> Seq<PluginV>
    decreases s,
{
    if s.len() == 0 {
        Seq::empty()
    } else {
        plugin_seq_v(s.drop_last()).push(s.last()@)
    }
}

pub broadcast proof fn lemma_plugin_seq_v(s: Seq<PyPlugin>)
    ensures
        (#[trigger] plugin_seq_v(s)).len() == s.len(),
        forall|i: int| 0 <= i < s.len() ==> plugin_seq_v(s)[i] == (#[trigger] s[i])@,
    decreases s,
{
    if s.len() > 0 {
        lemma_plugin_seq_v(s.drop_last());
        assert forall|i: int| 0 <= i < s.len() implies plugin_seq_v(s)[i] == (#[trigger] s[i])@ by {
            if i < s.len() - 1 {
                assert(s.drop_last()[i] == s[i]);
            } else {
                assert(s[i] == s.last());
            }
        }
    }
}

/// The enabled subset of the registry, as id and module token pairs.
pub open spec fn enabled_subset(t: Seq<(Seq<char>, PluginV)>) -> Seq<(Seq<char>, u64)>
    decreases t.len(),
{
    if t.len() == 0 {
        Seq::empty()
    } else if t.last().1.enabled {
        enabled_subset(t.drop_last()).push((t.last().0, t.last().1.py_module))
    } else {
        enabled_subset(t.drop_last())
    }
}

/// All of the registry, as id and module token pairs.
pub open spec fn all_handles(t: Seq<(Seq<char>, PluginV)>) -> Seq<(Seq<char>, u64)>
    decreases t.len(),
{
    if t.len() == 0 {
        Seq::empty()
    } else {
        all_handles(t.drop_last()).push((t.last().0, t.last().1.py_module))
    }
}

impl PyPluginStorage {
    /// Put one loaded plugin in, keyed by its id; an already-loaded plugin
    /// of the same id is replaced.
    pub fn add_plugin(&mut self, plugin: PyPlugin)
        requires
            old(self).wf(),
        ensures
            final(self).wf(),
            final(self)@ == tbl_upsert(old(self)@, plugin@.manifest.plugin_id, plugin@),
    {
        proof {
            lemma_plugins_v(self.storage@);
            crate::config::lemma_tbl_upsert(self@, plugin@.manifest.plugin_id, plugin@);
        }
        let ghost keyed = |t: Seq<(Seq<char>, PluginV)>|
            forall|j: int| 0 <= j < t.len() ==> (#[trigger] t[j]).0 == t[j].1.manifest.plugin_id;
        let ghost orig = self@;
        let ghost pv = plugin@;
        let key = plugin.id().to_owned();
        let mut i: usize = 0;
        while i < self.storage.len()
            invariant
                i <= self.storage@.len(),
                orig == old(self)@,
                tbl_distinct(orig),
                forall|j: int|
                    0 <= j < orig.len() ==> (#[trigger] orig[j]).0 == orig[j].1.manifest.plugin_id,
                key@ == pv.manifest.plugin_id,
                plugin@ == pv,
                orig == plugins_v(self.storage@),
                orig.len() == self.storage@.len(),
                forall|j: int|
                    0 <= j < self.storage@.len() ==> orig[j] == ((
                    #[trigger] self.storage@[j]).0@, self.storage@[j].1@),
                forall|j: int| 0 <= j < i ==> (#[trigger] orig[j]).0 != key@,
            decreases self.storage@.len() - i,
        {
            let hit = {
                let (k, _) = &self.storage[i];
                crate::strutil::string_eq_str(k, key.as_str())
            };
            if hit {
                let ghost pre = self.storage@;
                self.storage.set(i, (key, plugin));
                proof {
                    lemma_plugins_v(self.storage@);
                    crate::config::lemma_tbl_upsert_update(orig, key@, i as int);
                    assert forall|j: int|
                        0 <= j < self.storage@.len() implies plugins_v(self.storage@)[j]
                        == orig.update(i as int, (key@, pv))[j] by {
                        assert(plugins_v(self.storage@)[j] == ((self.storage@[j]).0@,
                        self.storage@[j].1@));
                        if j != i {
                            assert(self.storage@[j] == pre[j]);
                        }
                    }
                    assert(plugins_v(self.storage@) =~= orig.update(i as int, (key@, pv)));
                    assert forall|j: int|
                        0 <= j < plugins_v(self.storage@).len() implies (#[trigger] plugins_v(
                        self.storage@,
                    )[j]).0 == plugins_v(self.storage@)[j].1.manifest.plugin_id by {
                        if j != i {
                            assert(plugins_v(self.storage@)[j] == orig[j]);
                        }
                    }
                }
                return ;
            }
            i = i + 1;
        }
        let ghost pre = self.storage@;
        self.storage.push((key, plugin));
        proof {
            lemma_plugins_v(self.storage@);
            crate::config::lemma_tbl_upsert_push(orig, key@);
            assert forall|j: int|
                0 <= j < self.storage@.len() implies plugins_v(self.storage@)[j] == orig.push(
                (key@, pv),
            )[j] by {
                assert(plugins_v(self.storage@)[j] == ((self.storage@[j]).0@,
                self.storage@[j].1@));
                if j < pre.len() {
                    assert(self.storage@[j] == pre[j]);
                }
            }
            assert(plugins_v(self.storage@) =~= orig.push((key@, pv)));
            assert forall|j: int|
                0 <= j < plugins_v(self.storage@).len() implies (#[trigger] plugins_v(
                self.storage@,
            )[j]).0 == plugins_v(self.storage@)[j].1.manifest.plugin_id by {
                if j < orig.len() {
                    assert(plugins_v(self.storage@)[j] == orig[j]);
                }
            }
        }
    }

    /// The recorded flag of one id, or nothing for an unknown id.
    pub fn get_status(&self, plugin_id: &str) -> (r: Option<bool>)
        ensures
            r == match tbl_get(self@, plugin_id@) {
                Option::Some(p) => Option::Some(p.enabled),
                Option::None => Option::<bool>::None,
            },
    {
        proof {
            lemma_plugins_v(self.storage@);
        }
        let mut i: usize = 0;
        while i < self.storage.len()
            invariant
                i <= self.storage@.len(),
                plugins_v(self.storage@).len() == self.storage@.len(),
                forall|j: int|
                    0 <= j < self.storage@.len() ==> #[trigger] plugins_v(self.storage@)[j] == (
                    self.storage@[j].0@,
                    self.storage@[j].1@,
                ),
                forall|j: int|
                    0 <= j < i ==> (#[trigger] plugins_v(self.storage@)[j]).0 != plugin_id@,
            decreases self.storage@.len() - i,
        {
            let (k, plugin) = &self.storage[i];
            if crate::strutil::string_eq_str(k, plugin_id) {
                proof {
                    crate::config::lemma_tbl_get_found(
                        plugins_v(self.storage@),
                        plugin_id@,
                        i as int,
                    );
                }
                return Some(plugin.is_enable());
            }
            i = i + 1;
        }
        proof {
            crate::config::lemma_tbl_get_absent(plugins_v(self.storage@), plugin_id@);
        }
        None
    }

    /// Set one id's flag. An unknown id changes nothing.
    pub fn set_status(&mut self, plugin_id: &str, status: bool)
        ensures
            final(self)@ == match tbl_get(old(self)@, plugin_id@) {
                Option::Some(p) => old(self)@.update(
                    first_key_idx(old(self)@, plugin_id@),
                    (plugin_id@, (PluginV { enabled: status, ..p })),
                ),
                Option::None => old(self)@,
            },
            final(self)@.len() == old(self)@.len(),
    {
        proof {
            lemma_plugins_v(self.storage@);
        }
        let ghost orig = self@;
        let mut i: usize = 0;
        while i < self.storage.len()
            invariant
                i <= self.storage@.len(),
                orig == old(self)@,
                orig == plugins_v(self.storage@),
                orig.len() == self.storage@.len(),
                forall|j: int|
                    0 <= j < self.storage@.len() ==> orig[j] == ((
                    #[trigger] self.storage@[j]).0@, self.storage@[j].1@),
                forall|j: int| 0 <= j < i ==> (#[trigger] orig[j]).0 != plugin_id@,
            decreases self.storage@.len() - i,
        {
            let hit = {
                let (k, _) = &self.storage[i];
                crate::strutil::string_eq_str(k, plugin_id)
            };
            if hit {
                proof {
                    crate::config::lemma_tbl_get_found(orig, plugin_id@, i as int);
                    lemma_first_key_idx(orig, plugin_id@, i as int);
                }
                let ghost pre_ops = self.storage@;
                let (k, mut p) = self.storage.remove(i);
                p.set_enable(status);
                self.storage.insert(i, (k, p));
                proof {
                    lemma_plugins_v(self.storage@);
                    assert forall|j: int|
                        0 <= j < self.storage@.len() implies plugins_v(self.storage@)[j]
                        == orig.update(
                        i as int,
                        (plugin_id@, (PluginV { enabled: status, ..orig[i as int].1 })),
                    )[j] by {
                        assert(plugins_v(self.storage@)[j] == ((self.storage@[j]).0@,
                        self.storage@[j].1@));
                        if j < i {
                            assert(self.storage@[j] == pre_ops[j]);
                        } else if j > i {
                            assert(self.storage@[j] == pre_ops[j]);
                        }
                    }
                    assert(plugins_v(self.storage@) =~= orig.update(
                        i as int,
                        (plugin_id@, (PluginV { enabled: status, ..orig[i as int].1 })),
                    ));
                }
                return ;
            }
            i = i + 1;
        }
        proof {
            crate::config::lemma_tbl_get_absent(orig, plugin_id@);
            assert(plugins_v(self.storage@) =~= orig);
        }
    }

    /// The enabled plugins, as id and module token pairs, in registry
    /// order: the per-event call list.
    pub fn get_enabled_plugins(&self) -> (r: Vec<(String, crate::plugin::ModuleHandle)>)
        ensures
            pairs_u64_v(r@) == enabled_subset(self@),
    {
        proof {
            lemma_plugins_v(self.storage@);
        }
        let ghost full = self@;
        let mut out: Vec<(String, crate::plugin::ModuleHandle)> = Vec::new();
        let mut i: usize = 0;
        while i < self.storage.len()
            invariant
                i <= self.storage@.len(),
                full == plugins_v(self.storage@),
                full.len() == self.storage@.len(),
                forall|j: int|
                    0 <= j < self.storage@.len() ==> full[j] == ((
                    #[trigger] self.storage@[j]).0@, self.storage@[j].1@),
                pairs_u64_v(out@) == enabled_subset(full.subrange(0, i as int)),
            decreases self.storage@.len() - i,
        {
            let ghost pre = full.subrange(0, i as int);
            let ghost cur = full.subrange(0, i + 1 as int);
            proof {
                assert(cur.drop_last() =~= pre);
                assert(cur.last() == full[i as int]);
            }
            let (k, plugin) = &self.storage[i];
            if plugin.is_enable() {
                let ghost old_out = out@;
                out.push((k.clone(), plugin.py_module));
                proof {
                    lemma_pairs_u64_v(out@);
                    lemma_pairs_u64_v(old_out);
                    assert(out@.drop_last() =~= old_out);
                    assert(pairs_u64_v(out@) =~= pairs_u64_v(old_out).push(
                        (full[i as int].0, full[i as int].1.py_module),
                    ));
                }
            }
            i = i + 1;
        }
        proof {
            assert(full.subrange(0, full.len() as int) =~= full);
        }
        out
    }

    /// Every plugin, as id and module token pairs, in registry order.
    pub fn get_all_plugins(&self) -> (r: Vec<(String, crate::plugin::ModuleHandle)>)
        ensures
            pairs_u64_v(r@) == all_handles(self@),
    {
        proof {
            lemma_plugins_v(self.storage@);
        }
        let ghost full = self@;
        let mut out: Vec<(String, crate::plugin::ModuleHandle)> = Vec::new();
        let mut i: usize = 0;
        while i < self.storage.len()
            invariant
                i <= self.storage@.len(),
                full == plugins_v(self.storage@),
                full.len() == self.storage@.len(),
                forall|j: int|
                    0 <= j < self.storage@.len() ==> full[j] == ((
                    #[trigger] self.storage@[j]).0@, self.storage@[j].1@),
                pairs_u64_v(out@) == all_handles(full.subrange(0, i as int)),
            decreases self.storage@.len() - i,
        {
            let ghost pre = full.subrange(0, i as int);
            let ghost cur = full.subrange(0, i + 1 as int);
            proof {
                assert(cur.drop_last() =~= pre);
                assert(cur.last() == full[i as int]);
            }
            let (k, plugin) = &self.storage[i];
            let ghost old_out = out@;
            out.push((k.clone(), plugin.py_module));
            proof {
                lemma_pairs_u64_v(out@);
                lemma_pairs_u64_v(old_out);
                assert(out@.drop_last() =~= old_out);
                assert(pairs_u64_v(out@) =~= pairs_u64_v(old_out).push(
                    (full[i as int].0, full[i as int].1.py_module),
                ));
            }
            i = i + 1;
        }
        proof {
            assert(full.subrange(0, full.len() as int) =~= full);
        }
        out
    }

    /// The plugin loaded from the given path, if any.
    pub fn get_plugin_by_path(&self, path: &str) -> (r: Option<&PyPlugin>)
        ensures
            match r {
                Option::Some(p) => path_idx(self@, path@) >= 0 && p@ == self@[path_idx(
                    self@,
                    path@,
                )].1,
                Option::None => path_idx(self@, path@) == -1,
            },
    {
        proof {
            lemma_plugins_v(self.storage@);
            lemma_path_idx(self@, path@);
        }
        let ghost full = self@;
        let mut i: usize = 0;
        while i < self.storage.len()
            invariant
                i <= self.storage@.len(),
                full == plugins_v(self.storage@),
                full.len() == self.storage@.len(),
                forall|j: int|
                    0 <= j < self.storage@.len() ==> full[j] == ((
                    #[trigger] self.storage@[j]).0@, self.storage@[j].1@),
                forall|j: int| 0 <= j < i ==> (#[trigger] full[j]).1.plugin_path != path@,
            decreases self.storage@.len() - i,
        {
            let (_, plugin) = &self.storage[i];
            if crate::strutil::str_eq(plugin.plugin_path.as_str(), path) {
                proof {
                    lemma_path_idx_found(full, path@, i as int);
                }
                return Some(plugin);
            }
            i = i + 1;
        }
        proof {
            lemma_path_idx_absent(full, path@);
        }
        None
    }

    /// Whether the plugin loaded from the given path must be reloaded:
    /// nothing to do when no plugin came from there; otherwise the on-disk
    /// bytes' digest is compared to the one loaded. Bytes equal to the
    /// loaded source always compare as unchanged, and a reload is asked for
    /// only when the digest differs.
    pub fn check_reload_needed(&self, path: &str, content: &str) -> (r: ReloadCheck)
        ensures
            r is NoPlugin <==> path_idx(self@, path@) == -1,
            path_idx(self@, path@) >= 0 ==> {
                let p = self@[path_idx(self@, path@)].1;
                (r is Unchanged <==> hash_of(content@) == p.hash_result) && (r is Changed
                    <==> hash_of(content@) != p.hash_result)
            },
    {
        match self.get_plugin_by_path(path) {
            None => ReloadCheck::NoPlugin,
            Some(plugin) => {
                if plugin.changed_given(content) {
                    ReloadCheck::Changed
                } else {
                    ReloadCheck::Unchanged
                }
            },
        }
    }

    /// Land a reload's outcome on the plugin loaded from the given path.
    ///
    /// On success the module, manifest and digest are replaced together
    /// from the candidate, the enabled flag and path staying; on failure
    /// the registry is left byte for byte as it was, and the error passes
    /// through.
    pub fn finish_reload(
        &mut self,
        path: &str,
        outcome: Result<PyPlugin, crate::error::PyPluginInitError>,
    ) -> (r: Result<bool, crate::error::PyPluginInitError>)
        ensures
            match outcome {
                Result::Err(e) => final(self)@ == old(self)@ && (r matches Result::Err(e2) && e2
                    == e),
                Result::Ok(cand) => {
                    let idx = path_idx(old(self)@, path@);
                    if idx == -1 {
                        final(self)@ == old(self)@ && r == Result::<
                            bool,
                            crate::error::PyPluginInitError,
                        >::Ok(false)
                    } else {
                        final(self)@ == old(self)@.update(
                            idx,
                            (
                                old(self)@[idx].0,
                                (PluginV {
                                    py_module: cand@.py_module,
                                    manifest: cand@.manifest,
                                    hash_result: cand@.hash_result,
                                    enabled: old(self)@[idx].1.enabled,
                                    plugin_path: old(self)@[idx].1.plugin_path,
                                }),
                            ),
                        ) && r == Result::<bool, crate::error::PyPluginInitError>::Ok(true)
                    }
                },
            },
    {
        proof {
            lemma_plugins_v(self.storage@);
            lemma_path_idx(self@, path@);
        }
        let cand = match outcome {
            Err(e) => {
                return Err(e);
            },
            Ok(c) => c,
        };
        let ghost candv = cand@;
        proof {
            assert(outcome matches Result::Ok(c0) && c0@ == candv);
        }
        let ghost full = self@;
        let mut i: usize = 0;
        while i < self.storage.len()
            invariant
                i <= self.storage@.len(),
                cand@ == candv,
                outcome matches Result::Ok(c0) && c0@ == candv,
                full == old(self)@,
                full == plugins_v(self.storage@),
                full.len() == self.storage@.len(),
                self.storage@ == old(self).storage@,
                forall|j: int|
                    0 <= j < self.storage@.len() ==> full[j] == ((
                    #[trigger] self.storage@[j]).0@, self.storage@[j].1@),
                forall|j: int| 0 <= j < i ==> (#[trigger] full[j]).1.plugin_path != path@,
            decreases self.storage@.len() - i,
        {
            let hit = {
                let (_, plugin) = &self.storage[i];
                crate::strutil::str_eq(plugin.plugin_path.as_str(), path)
            };
            if hit {
                proof {
                    lemma_path_idx_found(full, path@, i as int);
                }
                let (k, mut p) = self.storage.remove(i);
                p.apply_reload(cand);
                self.storage.insert(i, (k, p));
                proof {
                    lemma_plugins_v(self.storage@);
                    assert forall|j: int|
                        0 <= j < self.storage@.len() implies plugins_v(self.storage@)[j]
                        == full.update(
                        i as int,
                        (
                            full[i as int].0,
                            (PluginV {
                                py_module: candv.py_module,
                                manifest: candv.manifest,
                                hash_result: candv.hash_result,
                                enabled: full[i as int].1.enabled,
                                plugin_path: full[i as int].1.plugin_path,
                            }),
                        ),
                    )[j] by {
                        assert(plugins_v(self.storage@)[j] == ((self.storage@[j]).0@,
                        self.storage@[j].1@));
                        if j < i {
                            assert(self.storage@[j] == old(self).storage@[j]);
                        } else if j > i {
                            assert(self.storage@[j] == old(self).storage@[j]);
                        }
                    }
                    assert(plugins_v(self.storage@) =~= full.update(
                        i as int,
                        (
                            full[i as int].0,
                            (PluginV {
                                py_module: candv.py_module,
                                manifest: candv.manifest,
                                hash_result: candv.hash_result,
                                enabled: full[i as int].1.enabled,
                                plugin_path: full[i as int].1.plugin_path,
                            }),
                        ),
                    ));
                }
                return Ok(true);
            }
            i = i + 1;
        }
        proof {
            lemma_path_idx_absent(full, path@);
        }
        Ok(false)
    }
}

/// The index the first match of a key sits at.
pub open spec fn first_key_idx(t: Seq<(Seq<char>, PluginV)>, k: Seq<char>) -> int
    decreases t.len(),
{
    if t.len() == 0 {
        -1
    } else if t[0].0 == k {
        0
    } else {
        let r = first_key_idx(t.subrange(1, t.len() as int), k);
        if r == -1 {
            -1
        } else {
            1 + r
        }
    }
}

proof fn lemma_first_key_idx(t: Seq<(Seq<char>, PluginV)>, k: Seq<char>, i: int)
    requires
        0 <= i < t.len(),
        t[i].0 == k,
        forall|j: int| 0 <= j < i ==> (#[trigger] t[j]).0 != k,
    ensures
        first_key_idx(t, k) == i,
    decreases i,
{
    if i > 0 {
        let rest = t.subrange(1, t.len() as int);
        assert(forall|j: int| 0 <= j < rest.len() ==> rest[j] == t[j + 1]);
        lemma_first_key_idx(rest, k, i - 1);
    }
}

proof fn lemma_path_idx_found(t: Seq<(Seq<char>, PluginV)>, p: Seq<char>, i: int)
    requires
        0 <= i < t.len(),
        t[i].1.plugin_path == p,
        forall|j: int| 0 <= j < i ==> (#[trigger] t[j]).1.plugin_path != p,
    ensures
        path_idx(t, p) == i,
    decreases i,
{
    if i > 0 {
        let rest = t.subrange(1, t.len() as int);
        assert(forall|j: int| 0 <= j < rest.len() ==> rest[j] == t[j + 1]);
        lemma_path_idx_found(rest, p, i - 1);
    }
}

proof fn lemma_path_idx_absent(t: Seq<(Seq<char>, PluginV)>, p: Seq<char>)
    requires
        forall|j: int| 0 <= j < t.len() ==> (#[trigger] t[j]).1.plugin_path != p,
    ensures
        path_idx(t, p) == -1,
    decreases t.len(),
{
    if t.len() > 0 {
        let rest = t.subrange(1, t.len() as int);
        assert(forall|j: int| 0 <= j < rest.len() ==> rest[j] == t[j + 1]);
        lemma_path_idx_absent(rest, p);
    }
}

/// The abstract values of a vector of id and module token pairs.
pub open spec fn pairs_u64_v(s: Seq<(String, crate::plugin::ModuleHandle)>) -> Seq<
    (Seq<char>, u64),
>
    decreases s,
{
    if s.len() == 0 {
        Seq::empty()
    } else {
        pairs_u64_v(s.drop_last()).push((s.last().0@, s.last().1.id))
    }
}

pub broadcast proof fn lemma_pairs_u64_v(s: Seq<(String, crate::plugin::ModuleHandle)>)
    ensures
        (#[trigger] pairs_u64_v(s)).len() == s.len(),
        forall|i: int|
            0 <= i < s.len() ==> pairs_u64_v(s)[i] == ((#[trigger] s[i]).0@, s[i].1.id),
    decreases s,
{
    if s.len() > 0 {
        lemma_pairs_u64_v(s.drop_last());
        assert forall|i: int|
            0 <= i < s.len() implies pairs_u64_v(s)[i] == ((#[trigger] s[i]).0@, s[i].1.id) by {
            if i < s.len() - 1 {
                assert(s.drop_last()[i] == s[i]);
            } else {
                assert(s[i] == s.last());
            }
        }
    }
}

/// The status file's text reads back to exactly the flags written, with
/// the comment header skipped.
pub proof fn lemma_status_text_round_trip(st: Seq<(Seq<char>, bool)>)
    requires
        tbl_distinct(st),
    ensures
        parse_doc(
            crate::toml_text::join_lines(status_header_lines()) + doc_text(status_table(st)),
        ) matches Option::Some(t) && status_of_table(t) == st,
{
    let hdr = status_header_lines();
    let body = status_table(st);
    lemma_status_table_doc_ok(st);
    crate::toml_text::lemma_doc_round_trip(body);
    // the header lines hold no newline and read as blank
    let l1 = "# Generated by the plugin host; the enable flags below are rewritten on sync."@;
    let l2 = "# Edit with care: unknown ids are kept, other lines are replaced."@;
    proof_header_line_blank();
    // the full text splits into the header lines followed by the body lines
    let all_lines = hdr + crate::toml_text::doc_lines(body);
    assert forall|i: int, j: int|
        0 <= i < all_lines.len() && 0 <= j < all_lines[i].len() implies #[trigger] all_lines[i][j]
        != '\n' by {
        if i < 2 {
            assert(all_lines[i] == hdr[i]);
        } else {
            assert(all_lines[i] == crate::toml_text::doc_lines(body)[i - 2]);
            lemma_doc_lines_no_nl(body, i - 2, j);
        }
    }
    crate::toml_text::lemma_split_join(all_lines);
    crate::toml_text::lemma_join_append(hdr, crate::toml_text::doc_lines(body));
    assert(crate::toml_text::join_lines(hdr) + doc_text(status_table(st))
        == crate::toml_text::join_lines(all_lines));
    assert forall|i: int|
        0 <= i < hdr.len() implies crate::toml_text::parse_line(#[trigger] hdr[i])
        == crate::toml_text::LineP::Blank by {
        if i == 0 {
            assert(hdr[0] == l1);
        } else {
            assert(hdr[1] == l2);
        }
    }
    crate::toml_text::lemma_pdl_blank_prefix(
        hdr,
        crate::toml_text::doc_lines(body),
        Seq::empty(),
        Option::None,
    );
    crate::toml_text::lemma_doc_lines_no_nl_all(body);
    crate::toml_text::lemma_split_join(crate::toml_text::doc_lines(body));
    assert(crate::toml_text::line_split(doc_text(body)) == crate::toml_text::doc_lines(body));
    assert(crate::toml_text::parse_doc_lines(
        all_lines,
        Seq::empty(),
        Option::None,
    ) == crate::toml_text::parse_doc_lines(
        crate::toml_text::doc_lines(body),
        Seq::empty(),
        Option::None,
    ));
    assert(parse_doc(
        crate::toml_text::join_lines(status_header_lines()) + doc_text(status_table(st)),
    ) == parse_doc(doc_text(body)));
    let t = parse_doc(doc_text(body))->0;
    // the parsed table answers the section lookup as the written one does
    assert(tbl_get(t, "plugins"@) == tbl_get(body, "plugins"@));
    assert(tbl_get(body, "plugins"@) == Option::Some(body[0].1)) by {
        assert(body[0].0 == "plugins"@);
    }
    lemma_bools_of_id(st);
}

/// Both header lines hold no newline and read as blank lines.
proof fn proof_header_line_blank()
    ensures
        forall|j: int|
            0 <= j
                < "# Generated by the plugin host; the enable flags below are rewritten on sync."@.len()
                ==> "# Generated by the plugin host; the enable flags below are rewritten on sync."@[j]
                != '\n',
        forall|j: int|
            0 <= j < "# Edit with care: unknown ids are kept, other lines are replaced."@.len()
                ==> "# Edit with care: unknown ids are kept, other lines are replaced."@[j]
                != '\n',
        crate::toml_text::parse_line(
            "# Generated by the plugin host; the enable flags below are rewritten on sync."@,
        ) == crate::toml_text::LineP::Blank,
        crate::toml_text::parse_line(
            "# Edit with care: unknown ids are kept, other lines are replaced."@,
        ) == crate::toml_text::LineP::Blank,
{
    reveal_strlit("# Generated by the plugin host; the enable flags below are rewritten on sync.");
    reveal_strlit("# Edit with care: unknown ids are kept, other lines are replaced.");
    let l1 = "# Generated by the plugin host; the enable flags below are rewritten on sync."@;
    let l2 = "# Edit with care: unknown ids are kept, other lines are replaced."@;
    assert(l1[0] == '#');
    assert(l2[0] == '#');
    assert(!crate::toml_text::is_ws(l1[0]));
    assert(!crate::toml_text::is_ws(l2[0]));
    assert(crate::toml_text::skip_ws(l1) =~= l1);
    assert(crate::toml_text::skip_ws(l2) =~= l2);
    assert(!crate::toml_text::is_ws(l1.last()));
    assert(!crate::toml_text::is_ws(l2.last()));
    assert(crate::toml_text::trim(l1) == l1);
    assert(crate::toml_text::trim(l2) == l2);
}

/// No written line of a document holds a newline; a pointwise corollary of
/// the writer's shape.
proof fn lemma_doc_lines_no_nl(t: Seq<(Seq<char>, ItemV)>, i: int, j: int)
    requires
        crate::toml_text::doc_ok(t),
        0 <= i < crate::toml_text::doc_lines(t).len(),
        0 <= j < crate::toml_text::doc_lines(t)[i].len(),
    ensures
        crate::toml_text::doc_lines(t)[i][j] != '\n',
{
    crate::toml_text::lemma_doc_lines_no_nl_all(t);
}

/// Copying flags in records the flag of a present id, and keeps ids
/// distinct.
pub proof fn lemma_sync_from_get(
    st: Seq<(Seq<char>, bool)>,
    plugs: Seq<(Seq<char>, PluginV)>,
    k: Seq<char>,
)
    requires
        tbl_distinct(st),
        tbl_distinct(plugs),
    ensures
        tbl_distinct(sync_from(st, plugs)),
        tbl_get(plugs, k) matches Option::Some(q) ==> tbl_get(sync_from(st, plugs), k)
            == Option::Some(q.enabled),
        tbl_get(plugs, k) is None ==> tbl_get(sync_from(st, plugs), k) == tbl_get(st, k),
    decreases plugs.len(),
{
    if plugs.len() > 0 {
        let pd = plugs.drop_last();
        let last = plugs.last();
        assert(tbl_distinct(pd)) by {
            assert(forall|j: int| 0 <= j < pd.len() ==> pd[j] == plugs[j]);
        }
        lemma_sync_from_get(st, pd, k);
        crate::config::lemma_tbl_upsert(sync_from(st, pd), last.0, last.1.enabled);
        // relate lookups in the whole run to lookups in the run without its
        // last entry
        assert(plugs =~= pd.push(last));
        if last.0 == k {
            // the last entry is the only one with this id
            assert forall|j: int| 0 <= j < pd.len() implies (#[trigger] pd[j]).0 != k by {
                assert(pd[j] == plugs[j]);
                assert(plugs[j].0 != plugs[plugs.len() - 1].0);
            }
            crate::config::lemma_tbl_get_absent(pd, k);
            crate::config::lemma_tbl_get_push_last(pd, last);
            assert(tbl_get(plugs, k) == Option::Some(last.1));
        } else {
            crate::config::lemma_tbl_get_push_other(pd, last, k);
            assert(tbl_get(plugs, k) == tbl_get(pd, k));
        }
    }
}

/// The whole round of persisting flags and reading them back on a fresh
/// start: disabling a plugin, copying the registry's flags to the record,
/// writing the record as the status file, reading that file back, and
/// reconciling a freshly loaded registry, leaves the plugin disabled.
pub proof fn lemma_status_persistence(
    reg: Seq<(Seq<char>, PluginV)>,
    st0: Seq<(Seq<char>, bool)>,
    id: Seq<char>,
    p: PluginV,
    fresh: Seq<(Seq<char>, PluginV)>,
    i: int,
)
    requires
        tbl_distinct(reg),
        tbl_distinct(st0),
        tbl_get(reg, id) == Option::Some(p),
        tbl_distinct(fresh),
        0 <= i < fresh.len(),
        fresh[i].0 == id,
    ensures
        ({
            let reg2 = tbl_upsert(reg, id, (PluginV { enabled: false, ..p }));
            let st1 = sync_from(st0, reg2);
            let text = crate::toml_text::join_lines(status_header_lines()) + doc_text(
                status_table(st1),
            );
            parse_doc(text) matches Option::Some(t) && {
                let reg3 = sync_to_plugins(status_of_table(t), fresh);
                tbl_get(reg3, id) matches Option::Some(q) && !q.enabled
            }
        }),
{
    let p2 = PluginV { enabled: false, ..p };
    let reg2 = tbl_upsert(reg, id, p2);
    crate::config::lemma_tbl_upsert(reg, id, p2);
    let st1 = sync_from(st0, reg2);
    lemma_sync_from_get(st0, reg2, id);
    assert(tbl_get(st1, id) == Option::Some(false));
    lemma_status_text_round_trip(st1);
    let text = crate::toml_text::join_lines(status_header_lines()) + doc_text(
        status_table(st1),
    );
    let t = parse_doc(text)->0;
    assert(status_of_table(t) == st1);
    let reg3 = sync_to_plugins(st1, fresh);
    assert(reg3[i] == (id, (PluginV { enabled: false, ..fresh[i].1 })));
    assert forall|j: int| 0 <= j < i implies (#[trigger] reg3[j]).0 != id by {
        assert(reg3[j].0 == fresh[j].0);
        assert(fresh[j].0 != fresh[i].0);
    }
    crate::config::lemma_tbl_get_found(reg3, id, i);
}

impl PyPluginStorage {
    /// Read the status file's text (when there is one), override the
    /// registry's flags from it, add unrecorded ids, and hand back the
    /// reconciled file text to write.
    pub fn sync_status_from_file(&mut self, text: Option<&str>) -> (r: String)
        requires
            tbl_distinct(old(self)@),
        ensures
            ({
                let st0 = match text {
                    Option::Some(tx) => match parse_doc(tx@) {
                        Option::Some(t) => status_of_table(t),
                        Option::None => Seq::empty(),
                    },
                    Option::None => Seq::<(Seq<char>, bool)>::empty(),
                };
                final(self)@ == sync_to_plugins(st0, old(self)@) && r@
                    == crate::toml_text::join_lines(status_header_lines()) + doc_text(
                    status_table(sync_to_status(st0, old(self)@)),
                )
            }),
    {
        let mut status = match text {
            Some(tx) => PluginStatus::from_text(tx),
            None => PluginStatus::new_empty(),
        };
        status.sync_to_storage(self);
        status.to_text()
    }

    /// Read the status file's text (when there is one), copy the
    /// registry's flags into it, and hand back the file text to write.
    pub fn sync_status_to_file(&self, text: Option<&str>) -> (r: String)
        ensures
            ({
                let st0 = match text {
                    Option::Some(tx) => match parse_doc(tx@) {
                        Option::Some(t) => status_of_table(t),
                        Option::None => Seq::empty(),
                    },
                    Option::None => Seq::<(Seq<char>, bool)>::empty(),
                };
                r@ == crate::toml_text::join_lines(status_header_lines()) + doc_text(
                    status_table(sync_from(st0, self@)),
                )
            }),
    {
        let mut status = match text {
            Some(tx) => PluginStatus::from_text(tx),
            None => PluginStatus::new_empty(),
        };
        status.sync_from_storage(self);
        status.to_text()
    }

    /// Take a scan's freshly loaded plugins in, reconcile with the status
    /// file's text, and hand back the reconciled file text to write: the
    /// whole of a startup scan after the per-file loads.
    pub fn load_plugins(&mut self, plugins: Vec<PyPlugin>, status_text: Option<&str>) -> (r:
        String)
        requires
            old(self).wf(),
        ensures
            ({
                let merged = fold_add(old(self)@, plugin_seq_v(plugins@));
                let st0 = match status_text {
                    Option::Some(tx) => match parse_doc(tx@) {
                        Option::Some(t) => status_of_table(t),
                        Option::None => Seq::empty(),
                    },
                    Option::None => Seq::<(Seq<char>, bool)>::empty(),
                };
                final(self)@ == sync_to_plugins(st0, merged) && r@
                    == crate::toml_text::join_lines(status_header_lines()) + doc_text(
                    status_table(sync_to_status(st0, merged)),
                )
            }),
    {
        proof {
            lemma_plugin_seq_v(plugins@);
        }
        let ghost ps = plugin_seq_v(plugins@);
        let mut plugins = plugins;
        let ghost orig = self@;
        loop
            invariant
                self.wf(),
                plugin_seq_v(plugins@).len() == plugins@.len(),
                forall|j: int|
                    0 <= j < plugins@.len() ==> plugin_seq_v(plugins@)[j] == (
                    #[trigger] plugins@[j])@,
                fold_add(orig, ps) == fold_add(self@, plugin_seq_v(plugins@)),
            ensures
                self.wf(),
                self@ == fold_add(orig, ps),
            decreases plugins@.len(),
        {
            if plugins.len() == 0 {
                proof {
                    assert(plugin_seq_v(plugins@) =~= Seq::<PluginV>::empty());
                    assert(fold_add(self@, plugin_seq_v(plugins@)) == self@);
                }
                break ;
            }
            let ghost pre = plugins@;
            let plugin = plugins.remove(0);
            proof {
                lemma_plugin_seq_v(pre);
                lemma_plugin_seq_v(plugins@);
                assert(plugin_seq_v(pre) =~= seq![plugin@] + plugin_seq_v(plugins@)) by {
                    assert forall|j: int|
                        0 <= j < pre.len() implies plugin_seq_v(pre)[j] == (seq![plugin@]
                        + plugin_seq_v(plugins@))[j] by {
                        if j > 0 {
                            assert(plugins@[j - 1] == pre[j]);
                        }
                    }
                }
                lemma_fold_add_front(self@, plugin@, plugin_seq_v(plugins@));
            }
            self.add_plugin(plugin);
        }
        self.sync_status_from_file(status_text)
    }
}

/// Merging applies the front plugin first.
proof fn lemma_fold_add_front(
    t: Seq<(Seq<char>, PluginV)>,
    x: PluginV,
    rest: Seq<PluginV>,
)
    ensures
        fold_add(t, seq![x] + rest) == fold_add(
            tbl_upsert(t, x.manifest.plugin_id, x),
            rest,
        ),
    decreases rest.len(),
{
    let s = seq![x] + rest;
    if rest.len() == 0 {
        assert(s.len() == 1);
        assert(s.drop_last() =~= Seq::<PluginV>::empty());
        assert(s.last() == x);
        assert(fold_add(t, Seq::<PluginV>::empty()) == t);
        assert(fold_add(tbl_upsert(t, x.manifest.plugin_id, x), rest) == tbl_upsert(
            t,
            x.manifest.plugin_id,
            x,
        ));
    } else {
        assert(s.drop_last() =~= seq![x] + rest.drop_last());
        assert(s.last() == rest.last());
        lemma_fold_add_front(t, x, rest.drop_last());
    }
}

/// How many registry entries are enabled.
pub open spec fn enabled_count_of(t: Seq<(Seq<char>, PluginV)>) -> nat
    decreases t.len(),
{
    if t.len() == 0 {
        0
    } else {
        enabled_count_of(t.drop_last()) + if t.last().1.enabled {
            1nat
        } else {
            0nat
        }
    }
}

/// One plugin's line in the listing: its id and name, colored or marked by
/// its flag.
pub open spec fn display_line(e: (Seq<char>, PluginV), color: bool) -> Seq<char> {
    let name = e.1.manifest.plugin_id + "("@ + e.1.manifest.name + ")"@;
    if e.1.enabled {
        if color {
            "\u{1b}[32m"@ + name + "\u{1b}[0m"@
        } else {
            name
        }
    } else {
        if color {
            "\u{1b}[31m"@ + name + "\u{1b}[0m"@
        } else {
            name + " [disabled]"@
        }
    }
}

/// The listing's body: one line per plugin, in registry order.
pub open spec fn display_body(t: Seq<(Seq<char>, PluginV)>, color: bool) -> Seq<char>
    decreases t.len(),
{
    if t.len() == 0 {
        Seq::empty()
    } else {
        display_body(t.drop_last(), color) + display_line(t.last(), color) + seq!['\n']
    }
}

proof fn lemma_enabled_count_bound(t: Seq<(Seq<char>, PluginV)>)
    ensures
        enabled_count_of(t) <= t.len(),
    decreases t.len(),
{
    if t.len() > 0 {
        lemma_enabled_count_bound(t.drop_last());
    }
}

impl PyPluginStorage {
    /// The plugin listing shown to operators: the enabled and total counts,
    /// then one line per plugin.
    pub fn display_plugins(&self, color: bool) -> (r: String)
        ensures
            r@ == "plugin list ("@ + crate::strutil::dec_digits(enabled_count_of(self@))
                + "/"@ + crate::strutil::dec_digits(self@.len()) + "):\n"@ + display_body(
                self@,
                color,
            ),
    {
        proof {
            lemma_plugins_v(self.storage@);
            lemma_enabled_count_bound(self@);
        }
        let ghost full = self@;
        let mut enabled: usize = 0;
        let mut i: usize = 0;
        while i < self.storage.len()
            invariant
                i <= self.storage@.len(),
                full == plugins_v(self.storage@),
                full.len() == self.storage@.len(),
                forall|j: int|
                    0 <= j < self.storage@.len() ==> full[j] == ((
                    #[trigger] self.storage@[j]).0@, self.storage@[j].1@),
                enabled == enabled_count_of(full.subrange(0, i as int)),
                enabled <= i,
            decreases self.storage@.len() - i,
        {
            let ghost pre = full.subrange(0, i as int);
            let ghost cur = full.subrange(0, i + 1 as int);
            proof {
                assert(cur.drop_last() =~= pre);
                assert(cur.last() == full[i as int]);
            }
            let (_, plugin) = &self.storage[i];
            if plugin.is_enable() {
                enabled = enabled + 1;
            }
            i = i + 1;
        }
        proof {
            assert(full.subrange(0, full.len() as int) =~= full);
        }
        let mut out = String::new();
        push_str(&mut out, "plugin list (");
        crate::strutil::push_usize(&mut out, enabled);
        push_str(&mut out, "/");
        crate::strutil::push_usize(&mut out, self.storage.len());
        push_str(&mut out, "):\n");
        let ghost head = out@;
        let mut i: usize = 0;
        while i < self.storage.len()
            invariant
                i <= self.storage@.len(),
                full == plugins_v(self.storage@),
                full.len() == self.storage@.len(),
                forall|j: int|
                    0 <= j < self.storage@.len() ==> full[j] == ((
                    #[trigger] self.storage@[j]).0@, self.storage@[j].1@),
                out@ == head + display_body(full.subrange(0, i as int), color),
            decreases self.storage@.len() - i,
        {
            let ghost pre = full.subrange(0, i as int);
            let ghost cur = full.subrange(0, i + 1 as int);
            proof {
                assert(cur.drop_last() =~= pre);
                assert(cur.last() == full[i as int]);
            }
            let (_, plugin) = &self.storage[i];
            let name = plugin.id_and_name();
            if plugin.is_enable() {
                if color {
                    push_str(&mut out, "\u{1b}[32m");
                    push_str(&mut out, name.as_str());
                    push_str(&mut out, "\u{1b}[0m");
                } else {
                    push_str(&mut out, name.as_str());
                }
            } else {
                if color {
                    push_str(&mut out, "\u{1b}[31m");
                    push_str(&mut out, name.as_str());
                    push_str(&mut out, "\u{1b}[0m");
                } else {
                    push_str(&mut out, name.as_str());
                    push_str(&mut out, " [disabled]");
                }
            }
            out.push('\n');
            proof {
                assert(out@ =~= head + display_body(cur, color));
            }
            i = i + 1;
        }
        proof {
            assert(full.subrange(0, full.len() as int) =~= full);
            assert(out@ =~= "plugin list ("@ + crate::strutil::dec_digits(
                enabled_count_of(full),
            ) + "/"@ + crate::strutil::dec_digits(full.len()) + "):\n"@ + display_body(
                full,
                color,
            ));
        }
        out
    }

    /// Take the plugin of one id out of the registry, handing it back.
    pub fn remove_plugin_by_id(&mut self, plugin_id: &str) -> (r: Option<PyPlugin>)
        ensures
            match tbl_get(old(self)@, plugin_id@) {
                Option::Some(p) => final(self)@ == old(self)@.remove(
                    first_key_idx(old(self)@, plugin_id@),
                ) && (r matches Option::Some(out) && out@ == p),
                Option::None => final(self)@ == old(self)@ && r is None,
            },
    {
        proof {
            lemma_plugins_v(self.storage@);
        }
        let ghost full = self@;
        let mut i: usize = 0;
        while i < self.storage.len()
            invariant
                i <= self.storage@.len(),
                full == old(self)@,
                full == plugins_v(self.storage@),
                full.len() == self.storage@.len(),
                self.storage@ == old(self).storage@,
                forall|j: int|
                    0 <= j < self.storage@.len() ==> full[j] == ((
                    #[trigger] self.storage@[j]).0@, self.storage@[j].1@),
                forall|j: int| 0 <= j < i ==> (#[trigger] full[j]).0 != plugin_id@,
            decreases self.storage@.len() - i,
        {
            let hit = {
                let (k, _) = &self.storage[i];
                crate::strutil::string_eq_str(k, plugin_id)
            };
            if hit {
                proof {
                    crate::config::lemma_tbl_get_found(full, plugin_id@, i as int);
                    lemma_first_key_idx(full, plugin_id@, i as int);
                }
                let (_, plugin) = self.storage.remove(i);
                proof {
                    lemma_plugins_v(self.storage@);
                    assert forall|j: int|
                        0 <= j < self.storage@.len() implies plugins_v(self.storage@)[j]
                        == full.remove(i as int)[j] by {
                        if j < i {
                            assert(self.storage@[j] == old(self).storage@[j]);
                        } else {
                            assert(self.storage@[j] == old(self).storage@[j + 1]);
                        }
                    }
                    assert(plugins_v(self.storage@) =~= full.remove(i as int));
                }
                return Some(plugin);
            }
            i = i + 1;
        }
        proof {
            crate::config::lemma_tbl_get_absent(full, plugin_id@);
        }
        None
    }

    /// Take the plugin loaded from one path out of the registry.
    pub fn remove_plugin_by_path(&mut self, plugin_path: &str) -> (r: Option<PyPlugin>)
        ensures
            ({
                let idx = path_idx(old(self)@, plugin_path@);
                if idx == -1 {
                    final(self)@ == old(self)@ && r is None
                } else {
                    final(self)@ == old(self)@.remove(idx) && (r matches Option::Some(out)
                        && out@ == old(self)@[idx].1)
                }
            }),
    {
        proof {
            lemma_plugins_v(self.storage@);
            lemma_path_idx(self@, plugin_path@);
        }
        let ghost full = self@;
        let mut i: usize = 0;
        while i < self.storage.len()
            invariant
                i <= self.storage@.len(),
                full == old(self)@,
                full == plugins_v(self.storage@),
                full.len() == self.storage@.len(),
                self.storage@ == old(self).storage@,
                forall|j: int|
                    0 <= j < self.storage@.len() ==> full[j] == ((
                    #[trigger] self.storage@[j]).0@, self.storage@[j].1@),
                forall|j: int| 0 <= j < i ==> (#[trigger] full[j]).1.plugin_path != plugin_path@,
            decreases self.storage@.len() - i,
        {
            let hit = {
                let (_, plugin) = &self.storage[i];
                crate::strutil::str_eq(plugin.plugin_path.as_str(), plugin_path)
            };
            if hit {
                proof {
                    lemma_path_idx_found(full, plugin_path@, i as int);
                }
                let (_, plugin) = self.storage.remove(i);
                proof {
                    lemma_plugins_v(self.storage@);
                    assert forall|j: int|
                        0 <= j < self.storage@.len() implies plugins_v(self.storage@)[j]
                        == full.remove(i as int)[j] by {
                        if j < i {
                            assert(self.storage@[j] == old(self).storage@[j]);
                        } else {
                            assert(self.storage@[j] == old(self).storage@[j + 1]);
                        }
                    }
                    assert(plugins_v(self.storage@) =~= full.remove(i as int));
                }
                return Some(plugin);
            }
            i = i + 1;
        }
        proof {
            lemma_path_idx_absent(full, plugin_path@);
        }
        None
    }
}

} // verus!
