//! The configuration value tree: a dynamically typed value used both for a
//! plugin's declared defaults and for the live values read from its config
//! file, together with the per-key schema (`ConfigItemPy`) and the per-section
//! store (`ConfigStoragePy`).

use vstd::prelude::*;

verus! {

broadcast use vstd::std_specs::vec::group_vec_axioms;

/// One configuration value.
///
/// Lists and tables may mix element types but may not nest further lists or
/// tables; `sanitized` (and the text parser) enforce that shape. A float is
/// kept as its decimal literal text, so the tree stays lossless and free of
/// machine floating point.
#[derive(Debug)]
pub enum ConfigItem {
    /// No value.
    Null,
    /// A text value.
    Str(String),
    /// A signed integer.
    I64(i64),
    /// A floating point value, as the literal text it was written with.
    F64(String),
    /// A boolean.
    Bool(bool),
    /// A list of scalar values.
    List(Vec<ConfigItem>),
    /// A table of scalar values keyed by name.
    Dict(Vec<(String, ConfigItem)>),
}

/// The mathematical shape of a configuration value.
#[verifier::ext_equal]
pub enum ItemV {
    Null,
    Str(Seq<char>),
    I64(int),
    F64(Seq<char>),
    Bool(bool),
    List(Seq<ItemV>),
    Dict(Seq<(Seq<char>, ItemV)>),
}

/// The abstract value of one configuration value.
pub open spec fn item_v(c: ConfigItem) -> ItemV
    decreases c,
{
    match c {
        ConfigItem::Null => ItemV::Null,
        ConfigItem::Str(s) => ItemV::Str(s@),
        ConfigItem::I64(i) => ItemV::I64(i as int),
        ConfigItem::F64(t) => ItemV::F64(t@),
        ConfigItem::Bool(b) => ItemV::Bool(b),
        ConfigItem::List(items) => ItemV::List(items_v(items@)),
        ConfigItem::Dict(entries) => ItemV::Dict(entries_v(entries@)),
    }
}

/// The abstract values of a sequence of configuration values.
pub open spec fn items_v(s: Seq<ConfigItem>) -> Seq<ItemV>
    decreases s,
{
    if s.len() == 0 {
        Seq::empty()
    } else {
        items_v(s.drop_last()).push(item_v(s.last()))
    }
}

/// The abstract values of a sequence of named configuration values.
pub open spec fn entries_v(s: Seq<(String, ConfigItem)>) -> Seq<(Seq<char>, ItemV)>
    decreases s,
{
    if s.len() == 0 {
        Seq::empty()
    } else {
        entries_v(s.drop_last()).push((s.last().0@, item_v(s.last().1)))
    }
}

pub broadcast proof fn lemma_items_v(s: Seq<ConfigItem>)
    ensures
        (#[trigger] items_v(s)).len() == s.len(),
        forall|i: int| 0 <= i < s.len() ==> items_v(s)[i] == item_v(#[trigger] s[i]),
    decreases s,
{
    if s.len() > 0 {
        lemma_items_v(s.drop_last());
        assert forall|i: int| 0 <= i < s.len() implies items_v(s)[i] == item_v(#[trigger] s[i]) by {
            if i < s.len() - 1 {
                assert(s.drop_last()[i] == s[i]);
            } else {
                assert(s[i] == s.last());
            }
        }
    }
}

pub broadcast proof fn lemma_entries_v(s: Seq<(String, ConfigItem)>)
    ensures
        (#[trigger] entries_v(s)).len() == s.len(),
        forall|i: int|
            0 <= i < s.len() ==> entries_v(s)[i] == ((#[trigger] s[i]).0@, item_v(s[i].1)),
    decreases s,
{
    if s.len() > 0 {
        lemma_entries_v(s.drop_last());
        assert forall|i: int|
            0 <= i < s.len() implies entries_v(s)[i] == ((#[trigger] s[i]).0@, item_v(s[i].1)) by {
            if i < s.len() - 1 {
                assert(s.drop_last()[i] == s[i]);
            } else {
                assert(s[i] == s.last());
            }
        }
    }
}

impl View for ConfigItem {
    type V = ItemV;

    open spec fn view(&self) -> ItemV {
        item_v(*self)
    }
}

/// Whether a value is a scalar: anything but a list or a table.
pub open spec fn is_scalar(v: ItemV) -> bool {
    match v {
        ItemV::List(_) => false,
        ItemV::Dict(_) => false,
        _ => true,
    }
}

/// The supported shape of a configuration value: a scalar, a list of
/// scalars, or a table of scalars.
pub open spec fn item_wf(v: ItemV) -> bool {
    match v {
        ItemV::List(items) => forall|i: int| 0 <= i < items.len() ==> is_scalar(#[trigger] items[i]),
        ItemV::Dict(entries) => forall|i: int|
            0 <= i < entries.len() ==> is_scalar(#[trigger] entries[i].1),
        _ => true,
    }
}

/// Whether a value contains no `Null` below its top level.
pub open spec fn null_free_inner(v: ItemV) -> bool {
    match v {
        ItemV::List(items) => forall|i: int|
            0 <= i < items.len() ==> #[trigger] items[i] != ItemV::Null,
        ItemV::Dict(entries) => forall|i: int|
            0 <= i < entries.len() ==> #[trigger] entries[i].1 != ItemV::Null,
        _ => true,
    }
}

impl Clone for ConfigItem {
    /// A deep copy with the same abstract value.
    #[verifier::loop_isolation(false)]
    fn clone(&self) -> (r: Self)
        ensures
            r@ == self@,
        decreases self,
    {
        match self {
            ConfigItem::Null => ConfigItem::Null,
            ConfigItem::Str(s) => ConfigItem::Str(s.clone()),
            ConfigItem::I64(i) => ConfigItem::I64(*i),
            ConfigItem::F64(t) => ConfigItem::F64(t.clone()),
            ConfigItem::Bool(b) => ConfigItem::Bool(*b),
            ConfigItem::List(items) => {
                let mut out: Vec<ConfigItem> = Vec::new();
                let mut i: usize = 0;
                while i < items.len()
                    invariant
                        i <= items@.len(),
                        out@.len() == i,
                        forall|j: int| 0 <= j < i ==> (#[trigger] out@[j])@ == items@[j]@,
                    decreases items@.len() - i,
                {
                    proof {
                        assert(decreases_to!(*self => items@[i as int])) by {
                            assert(decreases_to!(*self => self->List_0));
                            assert(*items == self->List_0);
                            assert(decreases_to!(*items => items@));
                            assert(decreases_to!(items@ => items@[i as int]));
                        }
                    }
                    out.push(items[i].clone());
                    i = i + 1;
                }
                proof {
                    lemma_items_v(out@);
                    lemma_items_v(items@);
                    assert forall|j: int|
                        0 <= j < items@.len() implies items_v(out@)[j] == items_v(items@)[j] by {
                        assert((out@[j])@ == items@[j]@);
                    }
                    assert(items_v(out@) =~= items_v(items@));
                }
                ConfigItem::List(out)
            },
            ConfigItem::Dict(entries) => {
                let mut out: Vec<(String, ConfigItem)> = Vec::new();
                let mut i: usize = 0;
                while i < entries.len()
                    invariant
                        i <= entries@.len(),
                        out@.len() == i,
                        forall|j: int| 0 <= j < i ==> (#[trigger] out@[j]).0@ == entries@[j].0@
                            && out@[j].1@ == entries@[j].1@,
                    decreases entries@.len() - i,
                {
                    proof {
                        assert(decreases_to!(*self => entries@[i as int].1)) by {
                            assert(decreases_to!(*self => self->Dict_0));
                            assert(*entries == self->Dict_0);
                            assert(decreases_to!(*entries => entries@));
                            assert(decreases_to!(entries@ => entries@[i as int]));
                        }
                    }
                    let (k, v) = &entries[i];
                    out.push((k.clone(), v.clone()));
                    i = i + 1;
                }
                proof {
                    lemma_entries_v(out@);
                    lemma_entries_v(entries@);
                    assert forall|j: int|
                        0 <= j < entries@.len() implies entries_v(out@)[j] == entries_v(
                        entries@,
                    )[j] by {
                        assert((out@[j]).0@ == entries@[j].0@ && (out@[j]).1@ == entries@[j].1@);
                    }
                    assert(entries_v(out@) =~= entries_v(entries@));
                }
                ConfigItem::Dict(out)
            },
        }
    }
}

/// The value stored under `k` in an association table, first match first.
pub open spec fn tbl_get<T>(t: Seq<(Seq<char>, T)>, k: Seq<char>) -> Option<T>
    decreases t.len(),
{
    if t.len() == 0 {
        Option::None
    } else if t[0].0 == k {
        Option::Some(t[0].1)
    } else {
        tbl_get(t.subrange(1, t.len() as int), k)
    }
}

/// Whether a table holds a value under `k`.
pub open spec fn tbl_has<T>(t: Seq<(Seq<char>, T)>, k: Seq<char>) -> bool {
    tbl_get(t, k) is Some
}

/// Whether a table's keys are pairwise distinct.
pub open spec fn tbl_distinct<T>(t: Seq<(Seq<char>, T)>) -> bool {
    forall|i: int, j: int| 0 <= i < j < t.len() ==> (#[trigger] t[i]).0 != (#[trigger] t[j]).0
}

/// Looking a key up skips over any prefix of entries with other keys.
pub proof fn lemma_tbl_get_skip<T>(t: Seq<(Seq<char>, T)>, k: Seq<char>, i: int)
    requires
        0 <= i <= t.len(),
        forall|j: int| 0 <= j < i ==> (#[trigger] t[j]).0 != k,
    ensures
        tbl_get(t, k) == tbl_get(t.subrange(i, t.len() as int), k),
    decreases i,
{
    if i > 0 {
        let t1 = t.subrange(1, t.len() as int);
        assert(t[0].0 != k);
        assert(forall|j: int| 0 <= j < i - 1 ==> (#[trigger] t1[j]).0 != k);
        lemma_tbl_get_skip(t1, k, i - 1);
        assert(t1.subrange(i - 1, t1.len() as int) =~= t.subrange(i, t.len() as int));
    } else {
        assert(t.subrange(0, t.len() as int) =~= t);
    }
}

/// If entry `i` is the first whose key is `k`, the lookup returns its value.
pub proof fn lemma_tbl_get_found<T>(t: Seq<(Seq<char>, T)>, k: Seq<char>, i: int)
    requires
        0 <= i < t.len(),
        t[i].0 == k,
        forall|j: int| 0 <= j < i ==> (#[trigger] t[j]).0 != k,
    ensures
        tbl_get(t, k) == Option::Some(t[i].1),
{
    lemma_tbl_get_skip(t, k, i);
    let suff = t.subrange(i, t.len() as int);
    assert(suff[0] == t[i]);
}

/// If no entry has key `k`, the lookup fails.
pub proof fn lemma_tbl_get_absent<T>(t: Seq<(Seq<char>, T)>, k: Seq<char>)
    requires
        forall|j: int| 0 <= j < t.len() ==> (#[trigger] t[j]).0 != k,
    ensures
        tbl_get(t, k) is None,
{
    lemma_tbl_get_skip(t, k, t.len() as int);
}

/// Find the first entry with key `k` in a table of configuration values.
pub fn table_get<'a>(t: &'a Vec<(String, ConfigItem)>, k: &str) -> (r: Option<&'a ConfigItem>)
    ensures
        match r {
            Option::Some(v) => tbl_get(entries_v(t@), k@) == Option::Some(v@),
            Option::None => tbl_get(entries_v(t@), k@) is None,
        },
{
    proof {
        lemma_entries_v(t@);
    }
    let mut i: usize = 0;
    while i < t.len()
        invariant
            i <= t@.len(),
            entries_v(t@).len() == t@.len(),
            forall|j: int|
                0 <= j < t@.len() ==> #[trigger] entries_v(t@)[j] == (t@[j].0@, item_v(t@[j].1)),
            forall|j: int| 0 <= j < i ==> (#[trigger] entries_v(t@)[j]).0 != k@,
        decreases t@.len() - i,
    {
        let (key, val) = &t[i];
        if crate::strutil::string_eq_str(key, k) {
            proof {
                lemma_tbl_get_found(entries_v(t@), k@, i as int);
            }
            return Some(val);
        }
        i = i + 1;
    }
    proof {
        lemma_tbl_get_absent(entries_v(t@), k@);
    }
    None
}

/// The elements of `s` that are scalars, in order.
pub open spec fn keep_scalars(s: Seq<ItemV>) -> Seq<ItemV>
    decreases s.len(),
{
    if s.len() == 0 {
        Seq::empty()
    } else if is_scalar(s.last()) {
        keep_scalars(s.drop_last()).push(s.last())
    } else {
        keep_scalars(s.drop_last())
    }
}

/// The entries of `s` whose values are scalars, in order.
pub open spec fn keep_scalar_entries(s: Seq<(Seq<char>, ItemV)>) -> Seq<(Seq<char>, ItemV)>
    decreases s.len(),
{
    if s.len() == 0 {
        Seq::empty()
    } else if is_scalar(s.last().1) {
        keep_scalar_entries(s.drop_last()).push(s.last())
    } else {
        keep_scalar_entries(s.drop_last())
    }
}

/// A value with any nested list or table elements dropped, so that the
/// supported shape holds: scalars pass through, lists and tables keep only
/// their scalar members.
pub open spec fn sanitized(v: ItemV) -> ItemV {
    match v {
        ItemV::List(items) => ItemV::List(keep_scalars(items)),
        ItemV::Dict(entries) => ItemV::Dict(keep_scalar_entries(entries)),
        _ => v,
    }
}

pub proof fn lemma_keep_scalars_wf(s: Seq<ItemV>)
    ensures
        forall|i: int|
            0 <= i < keep_scalars(s).len() ==> is_scalar(#[trigger] keep_scalars(s)[i]),
    decreases s.len(),
{
    if s.len() > 0 {
        lemma_keep_scalars_wf(s.drop_last());
        let kd = keep_scalars(s.drop_last());
        if is_scalar(s.last()) {
            assert forall|i: int|
                0 <= i < keep_scalars(s).len() implies is_scalar(#[trigger] keep_scalars(s)[i]) by {
                if i < kd.len() {
                    assert(keep_scalars(s)[i] == kd[i]);
                } else {
                    assert(keep_scalars(s)[i] == s.last());
                }
            }
        }
    }
}

pub proof fn lemma_keep_scalar_entries_wf(s: Seq<(Seq<char>, ItemV)>)
    ensures
        forall|i: int|
            0 <= i < keep_scalar_entries(s).len() ==> is_scalar(
                (#[trigger] keep_scalar_entries(s)[i]).1,
            ),
    decreases s.len(),
{
    if s.len() > 0 {
        lemma_keep_scalar_entries_wf(s.drop_last());
        let kd = keep_scalar_entries(s.drop_last());
        if is_scalar(s.last().1) {
            assert forall|i: int|
                0 <= i < keep_scalar_entries(s).len() implies is_scalar(
                (#[trigger] keep_scalar_entries(s)[i]).1,
            ) by {
                if i < kd.len() {
                    assert(keep_scalar_entries(s)[i] == kd[i]);
                } else {
                    assert(keep_scalar_entries(s)[i] == s.last());
                }
            }
        }
    }
}

/// A sanitized value always has the supported shape.
pub proof fn lemma_sanitized_wf(v: ItemV)
    ensures
        item_wf(sanitized(v)),
{
    match v {
        ItemV::List(items) => lemma_keep_scalars_wf(items),
        ItemV::Dict(entries) => lemma_keep_scalar_entries_wf(entries),
        _ => (),
    }
}

/// A value of supported shape is unchanged by sanitizing.
pub proof fn lemma_sanitized_id(v: ItemV)
    ensures
        item_wf(v) ==> sanitized(v) == v,
{
    if item_wf(v) {
        match v {
            ItemV::List(items) => {
                lemma_keep_scalars_id(items);
                assert(sanitized(v) =~= v);
            },
            ItemV::Dict(entries) => {
                lemma_keep_scalar_entries_id(entries);
                assert(sanitized(v) =~= v);
            },
            _ => (),
        }
    }
}

proof fn lemma_keep_scalars_id(s: Seq<ItemV>)
    requires
        forall|i: int| 0 <= i < s.len() ==> is_scalar(#[trigger] s[i]),
    ensures
        keep_scalars(s) == s,
    decreases s.len(),
{
    if s.len() > 0 {
        lemma_keep_scalars_id(s.drop_last());
        assert(keep_scalars(s) =~= s);
    } else {
        assert(keep_scalars(s) =~= s);
    }
}

proof fn lemma_keep_scalar_entries_id(s: Seq<(Seq<char>, ItemV)>)
    requires
        forall|i: int| 0 <= i < s.len() ==> is_scalar((#[trigger] s[i]).1),
    ensures
        keep_scalar_entries(s) == s,
    decreases s.len(),
{
    if s.len() > 0 {
        lemma_keep_scalar_entries_id(s.drop_last());
        assert(keep_scalar_entries(s) =~= s);
    } else {
        assert(keep_scalar_entries(s) =~= s);
    }
}

impl ConfigItem {
    /// This value with nested lists and tables dropped from inside lists and
    /// tables, leaving the supported shape.
    pub fn sanitized(&self) -> (r: ConfigItem)
        ensures
            r@ == sanitized(self@),
            item_wf(r@),
    {
        proof {
            lemma_sanitized_wf(self@);
        }
        match self {
            ConfigItem::List(items) => {
                proof {
                    lemma_items_v(items@);
                }
                let ghost full = items_v(items@);
                let mut out: Vec<ConfigItem> = Vec::new();
                let mut i: usize = 0;
                while i < items.len()
                    invariant
                        i <= items@.len(),
                        full == items_v(items@),
                        full.len() == items@.len(),
                        forall|j: int| 0 <= j < items@.len() ==> full[j] == item_v(#[trigger] items@[j]),
                        items_v(out@) == keep_scalars(full.subrange(0, i as int)),
                    decreases items@.len() - i,
                {
                    let ghost pre = full.subrange(0, i as int);
                    let ghost cur = full.subrange(0, i + 1 as int);
                    proof {
                        assert(cur.drop_last() =~= pre);
                        assert(cur.last() == item_v(items@[i as int]));
                    }
                    if items[i].is_scalar() {
                        let ghost old_out = out@;
                        let e = items[i].clone();
                        out.push(e);
                        proof {
                            assert(out@.drop_last() =~= old_out);
                            assert(item_v(out@.last()) == item_v(items@[i as int]));
                            assert(items_v(out@) == items_v(old_out).push(
                                item_v(items@[i as int]),
                            ));
                        }
                    }
                    i = i + 1;
                }
                proof {
                    assert(full.subrange(0, items@.len() as int) =~= full);
                }
                ConfigItem::List(out)
            },
            ConfigItem::Dict(entries) => {
                proof {
                    lemma_entries_v(entries@);
                }
                let ghost full = entries_v(entries@);
                let mut out: Vec<(String, ConfigItem)> = Vec::new();
                let mut i: usize = 0;
                while i < entries.len()
                    invariant
                        i <= entries@.len(),
                        full == entries_v(entries@),
                        full.len() == entries@.len(),
                        forall|j: int|
                            0 <= j < entries@.len() ==> full[j] == ((#[trigger] entries@[j]).0@,
                            item_v(entries@[j].1)),
                        entries_v(out@) == keep_scalar_entries(full.subrange(0, i as int)),
                    decreases entries@.len() - i,
                {
                    let ghost pre = full.subrange(0, i as int);
                    let ghost cur = full.subrange(0, i + 1 as int);
                    proof {
                        assert(cur.drop_last() =~= pre);
                        assert(cur.last() == (entries@[i as int].0@, item_v(entries@[i as int].1)));
                    }
                    let (k, v) = &entries[i];
                    if v.is_scalar() {
                        let ghost old_out = out@;
                        let kk = k.clone();
                        let vv = v.clone();
                        out.push((kk, vv));
                        proof {
                            assert(out@.drop_last() =~= old_out);
                            assert(out@.last().0@ == entries@[i as int].0@);
                            assert(item_v(out@.last().1) == item_v(entries@[i as int].1));
                            assert(entries_v(out@) == entries_v(old_out).push(
                                (entries@[i as int].0@, item_v(entries@[i as int].1)),
                            ));
                        }
                    }
                    i = i + 1;
                }
                proof {
                    assert(full.subrange(0, entries@.len() as int) =~= full);
                }
                ConfigItem::Dict(out)
            },
            other => other.clone(),
        }
    }

    /// A text value.
    pub fn str(s: &str) -> (r: ConfigItem)
        ensures
            r@ == ItemV::Str(s@),
    {
        ConfigItem::Str(s.to_owned())
    }

    /// A boolean value.
    pub fn bool(b: bool) -> (r: ConfigItem)
        ensures
            r@ == ItemV::Bool(b),
    {
        ConfigItem::Bool(b)
    }

    /// Whether this value is a scalar.
    pub fn is_scalar(&self) -> (r: bool)
        ensures
            r == is_scalar(self@),
    {
        match self {
            ConfigItem::List(_) => false,
            ConfigItem::Dict(_) => false,
            _ => true,
        }
    }
}

/// One schema key: a declared default and the value currently bound from a
/// file, if any.
#[derive(Debug)]
pub struct ConfigItemPy {
    /// The value read from a file; `None` until a file bound this key.
    pub item: Option<ConfigItem>,
    /// The default declared by the plugin.
    pub default_value: ConfigItem,
}

/// The abstract state of one schema key.
#[verifier::ext_equal]
pub struct SlotV {
    pub item: Option<ItemV>,
    pub default_value: ItemV,
}

impl View for ConfigItemPy {
    type V = SlotV;

    open spec fn view(&self) -> SlotV {
        SlotV {
            item: match self.item {
                Option::Some(c) => Option::Some(item_v(c)),
                Option::None => Option::None,
            },
            default_value: item_v(self.default_value),
        }
    }
}

/// How one key takes a value from a file: the value is accepted when its
/// shape matches the default's shape (scalar for scalar, list for list,
/// table for table; a `Null` default accepts anything); a mismatch leaves
/// the current value as it was.
pub open spec fn slot_read(s: SlotV, v: ItemV) -> SlotV {
    let item = match s.default_value {
        ItemV::Null => Option::Some(sanitized(v)),
        ItemV::Dict(_) => if v is Dict {
            Option::Some(sanitized(v))
        } else {
            s.item
        },
        ItemV::List(_) => if v is List {
            Option::Some(sanitized(v))
        } else {
            s.item
        },
        _ => if is_scalar(v) {
            Option::Some(v)
        } else {
            s.item
        },
    };
    SlotV { item, default_value: s.default_value }
}

impl Clone for ConfigItemPy {
    /// A deep copy with the same abstract state.
    fn clone(&self) -> (r: Self)
        ensures
            r@ == self@,
    {
        Self {
            item: match &self.item {
                Some(c) => Some(c.clone()),
                None => None,
            },
            default_value: self.default_value.clone(),
        }
    }
}

impl ConfigItemPy {
    /// A key with the given current value and default.
    pub fn new(item: Option<ConfigItem>, default_value: ConfigItem) -> (r: Self)
        ensures
            r@ == (ConfigItemPy { item, default_value })@,
    {
        Self { item, default_value }
    }

    /// A key that no file has bound yet.
    pub fn new_uninit(default_value: ConfigItem) -> (r: Self)
        ensures
            r@.item is None,
            r@.default_value == default_value@,
    {
        Self { item: None, default_value }
    }

    /// Bind the current value to a copy of the default.
    pub fn sync_default(&mut self)
        ensures
            final(self)@.item == Option::Some(old(self)@.default_value),
            final(self)@.default_value == old(self)@.default_value,
    {
        self.item = Some(self.default_value.clone());
    }

    /// Take a value from a file, if its shape matches the default's shape.
    ///
    /// A mismatched shape never fails: it leaves the current value as it
    /// was, which may be unset.
    pub fn read_toml(&mut self, value: &ConfigItem)
        ensures
            final(self)@ == slot_read(old(self)@, value@),
    {
        match &self.default_value {
            ConfigItem::Null => {
                self.item = Some(value.sanitized());
            },
            ConfigItem::Dict(_) => {
                if let ConfigItem::Dict(_) = value {
                    self.item = Some(value.sanitized());
                }
            },
            ConfigItem::List(_) => {
                if let ConfigItem::List(_) = value {
                    self.item = Some(value.sanitized());
                }
            },
            _ => {
                if value.is_scalar() {
                    self.item = Some(value.clone());
                }
            },
        }
        assert(final(self)@ =~= slot_read(old(self)@, value@));
    }

    /// Whether the current value is a table holding the given key.
    pub fn have_item(&self, name: &str) -> (r: bool)
        ensures
            r == match self@.item {
                Option::Some(ItemV::Dict(es)) => tbl_has(es, name@),
                _ => false,
            },
    {
        if let Some(item) = &self.item {
            match item {
                ConfigItem::Dict(entries) => {
                    match table_get(entries, name) {
                        Some(_) => true,
                        None => false,
                    }
                },
                _ => false,
            }
        } else {
            false
        }
    }
}

/// A table with the entry for `k` replaced by `(k, v)` in place, or appended
/// when no entry has key `k`.
pub open spec fn tbl_upsert<T>(t: Seq<(Seq<char>, T)>, k: Seq<char>, v: T) -> Seq<
    (Seq<char>, T),
>
    decreases t.len(),
{
    if t.len() == 0 {
        seq![(k, v)]
    } else if t[0].0 == k {
        seq![(k, v)] + t.subrange(1, t.len() as int)
    } else {
        seq![t[0]] + tbl_upsert(t.subrange(1, t.len() as int), k, v)
    }
}

/// What an upsert does to lookups: the written key now maps to the new
/// value, every other key is untouched, and distinctness is preserved.
pub proof fn lemma_tbl_upsert<T>(t: Seq<(Seq<char>, T)>, k: Seq<char>, v: T)
    requires
        tbl_distinct(t),
    ensures
        tbl_distinct(tbl_upsert(t, k, v)),
        tbl_get(tbl_upsert(t, k, v), k) == Option::Some(v),
        forall|k2: Seq<char>|
            k2 != k ==> #[trigger] tbl_get(tbl_upsert(t, k, v), k2) == tbl_get(t, k2),
        tbl_has(t, k) ==> tbl_upsert(t, k, v).len() == t.len(),
        !tbl_has(t, k) ==> tbl_upsert(t, k, v).len() == t.len() + 1,
    decreases t.len(),
{
    let u = tbl_upsert(t, k, v);
    if t.len() == 0 {
        assert(u =~= seq![(k, v)]);
        assert forall|k2: Seq<char>| k2 != k implies #[trigger] tbl_get(u, k2) == tbl_get(
            t,
            k2,
        ) by {
            assert(u.subrange(1, 1) =~= Seq::<(Seq<char>, T)>::empty());
            assert(tbl_get(u.subrange(1, 1), k2) == Option::<T>::None);
        }
    } else if t[0].0 == k {
        let rest = t.subrange(1, t.len() as int);
        assert(u =~= seq![(k, v)] + rest);
        assert(u.subrange(1, u.len() as int) =~= rest);
        assert(u[0] == (k, v));
        assert forall|k2: Seq<char>| k2 != k implies #[trigger] tbl_get(u, k2) == tbl_get(
            t,
            k2,
        ) by {
            assert(tbl_get(u, k2) == tbl_get(rest, k2));
            assert(tbl_get(t, k2) == tbl_get(rest, k2));
        }
        assert forall|i: int, j: int| 0 <= i < j < u.len() implies (#[trigger] u[i]).0 != (
        #[trigger] u[j]).0 by {
            if i == 0 {
                assert(u[j] == t[j]);
                assert(t[0].0 != t[j].0);
            } else {
                assert(u[i] == t[i] && u[j] == t[j]);
            }
        }
    } else {
        let rest = t.subrange(1, t.len() as int);
        assert(tbl_distinct(rest)) by {
            assert(forall|i: int, j: int|
                0 <= i < j < rest.len() ==> (#[trigger] rest[i]).0 != (#[trigger] rest[j]).0)
                by {
                assert(forall|i: int| 0 <= i < rest.len() ==> rest[i] == t[i + 1]);
            }
        }
        lemma_tbl_upsert(rest, k, v);
        let ur = tbl_upsert(rest, k, v);
        assert(u =~= seq![t[0]] + ur);
        assert(u[0] == t[0]);
        assert(u.subrange(1, u.len() as int) =~= ur);
        assert(tbl_get(u, k) == tbl_get(ur, k));
        assert(tbl_get(t, k) == tbl_get(rest, k));
        assert forall|k2: Seq<char>| k2 != k implies #[trigger] tbl_get(u, k2) == tbl_get(
            t,
            k2,
        ) by {
            if t[0].0 == k2 {
                assert(tbl_get(u, k2) == Option::Some(u[0].1));
                assert(tbl_get(t, k2) == Option::Some(t[0].1));
            } else {
                assert(tbl_get(u, k2) == tbl_get(ur, k2));
                assert(tbl_get(t, k2) == tbl_get(rest, k2));
            }
        }
        assert forall|i: int, j: int| 0 <= i < j < u.len() implies (#[trigger] u[i]).0 != (
        #[trigger] u[j]).0 by {
            if i == 0 {
                assert(u[j] == ur[j - 1]);
                lemma_tbl_upsert_keys(rest, k, v, j - 1);
                if ur[j - 1].0 != k {
                    let j2 = choose|j2: int|
                        0 <= j2 < rest.len() && (#[trigger] rest[j2]).0 == ur[j - 1].0;
                    assert(t[j2 + 1] == rest[j2]);
                    assert(t[0].0 != t[j2 + 1].0);
                }
            } else {
                assert(u[i] == ur[i - 1] && u[j] == ur[j - 1]);
            }
        }
    }
}

/// Every key of an upserted table is the written key or a key of the
/// original table.
proof fn lemma_tbl_upsert_keys<T>(t: Seq<(Seq<char>, T)>, k: Seq<char>, v: T, i: int)
    requires
        0 <= i < tbl_upsert(t, k, v).len(),
    ensures
        tbl_upsert(t, k, v)[i].0 == k || exists|j: int|
            0 <= j < t.len() && (#[trigger] t[j]).0 == tbl_upsert(t, k, v)[i].0,
    decreases t.len(),
{
    let u = tbl_upsert(t, k, v);
    if t.len() == 0 {
    } else if t[0].0 == k {
        if i > 0 {
            assert(u[i] == t.subrange(1, t.len() as int)[i - 1]);
            assert(t[i] == t.subrange(1, t.len() as int)[i - 1]);
        }
    } else {
        if i > 0 {
            let rest = t.subrange(1, t.len() as int);
            assert(u[i] == tbl_upsert(rest, k, v)[i - 1]);
            lemma_tbl_upsert_keys(rest, k, v, i - 1);
            if tbl_upsert(rest, k, v)[i - 1].0 != k {
                let j = choose|j: int|
                    0 <= j < rest.len() && (#[trigger] rest[j]).0 == tbl_upsert(rest, k, v)[i
                        - 1].0;
                assert(t[j + 1] == rest[j]);
            }
        }
    }
}

/// One named configuration section: a set of keys with defaults and current
/// values, and whether a file has been bound to it.
#[derive(Debug)]
pub struct ConfigStoragePy {
    /// The keys of the section, in declaration order, names distinct.
    pub keys: Vec<(String, ConfigItemPy)>,
    /// Whether a file (or the defaults) has been bound to this section.
    pub inited: bool,
}

/// The abstract state of one configuration section.
#[verifier::ext_equal]
pub struct StorageV {
    pub keys: Seq<(Seq<char>, SlotV)>,
    pub inited: bool,
}

/// The abstract states of a sequence of named schema keys.
pub open spec fn slots_v(s: Seq<(String, ConfigItemPy)>) -> Seq<(Seq<char>, SlotV)>
    decreases s,
{
    if s.len() == 0 {
        Seq::empty()
    } else {
        slots_v(s.drop_last()).push((s.last().0@, s.last().1@))
    }
}

pub broadcast proof fn lemma_slots_v(s: Seq<(String, ConfigItemPy)>)
    ensures
        (#[trigger] slots_v(s)).len() == s.len(),
        forall|i: int| 0 <= i < s.len() ==> slots_v(s)[i] == ((#[trigger] s[i]).0@, s[i].1@),
    decreases s,
{
    if s.len() > 0 {
        lemma_slots_v(s.drop_last());
        assert forall|i: int|
            0 <= i < s.len() implies slots_v(s)[i] == ((#[trigger] s[i]).0@, s[i].1@) by {
            if i < s.len() - 1 {
                assert(s.drop_last()[i] == s[i]);
            } else {
                assert(s[i] == s.last());
            }
        }
    }
}

impl View for ConfigStoragePy {
    type V = StorageV;

    open spec fn view(&self) -> StorageV {
        StorageV { keys: slots_v(self.keys@), inited: self.inited }
    }
}

impl Clone for ConfigStoragePy {
    /// A deep copy with the same abstract state.
    fn clone(&self) -> (r: Self)
        ensures
            r@ == self@,
    {
        let mut keys: Vec<(String, ConfigItemPy)> = Vec::new();
        let mut i: usize = 0;
        while i < self.keys.len()
            invariant
                i <= self.keys@.len(),
                keys@.len() == i,
                forall|j: int| 0 <= j < i ==> (#[trigger] keys@[j]).0@ == self.keys@[j].0@
                    && keys@[j].1@ == self.keys@[j].1@,
            decreases self.keys@.len() - i,
        {
            let (k, slot) = &self.keys[i];
            keys.push((k.clone(), slot.clone()));
            i = i + 1;
        }
        proof {
            lemma_slots_v(keys@);
            lemma_slots_v(self.keys@);
            assert forall|j: int|
                0 <= j < self.keys@.len() implies slots_v(keys@)[j] == slots_v(
                self.keys@,
            )[j] by {
                assert((keys@[j]).0@ == self.keys@[j].0@ && (keys@[j]).1@ == self.keys@[j].1@);
            }
            assert(slots_v(keys@) =~= slots_v(self.keys@));
        }
        Self { keys, inited: self.inited }
    }
}

/// How a whole section takes a file table: every key present in the table is
/// read with shape checking; every key the table omits falls back to a copy
/// of its default; the section counts as bound afterwards.
pub open spec fn storage_read(st: StorageV, t: Seq<(Seq<char>, ItemV)>) -> StorageV {
    StorageV {
        inited: true,
        keys: Seq::new(
            st.keys.len(),
            |i: int|
                (
                    st.keys[i].0,
                    match tbl_get(t, st.keys[i].0) {
                        Option::Some(v) => slot_read(st.keys[i].1, v),
                        Option::None => SlotV {
                            item: Option::Some(st.keys[i].1.default_value),
                            default_value: st.keys[i].1.default_value,
                        },
                    },
                ),
        ),
    }
}

impl ConfigStoragePy {
    /// Whether the section's key names are pairwise distinct.
    pub open spec fn wf(self) -> bool {
        tbl_distinct(self@.keys)
    }

    /// An empty section, no keys declared, nothing bound.
    pub fn new_empty() -> (r: Self)
        ensures
            r@.keys.len() == 0,
            !r@.inited,
            r.wf(),
    {
        let r = Self { keys: Vec::new(), inited: false };
        proof {
            lemma_slots_v(r.keys@);
        }
        r
    }

    /// Replace or append one key, keeping names distinct.
    fn upsert_key(&mut self, key: &str, slot: ConfigItemPy)
        requires
            old(self).wf(),
        ensures
            final(self).wf(),
            final(self)@.keys == tbl_upsert(old(self)@.keys, key@, slot@),
            final(self)@.inited == old(self)@.inited,
    {
        proof {
            lemma_slots_v(self.keys@);
            lemma_tbl_upsert(self@.keys, key@, slot@);
        }
        let ghost orig = self@.keys;
        let ghost slotv = slot@;
        let mut i: usize = 0;
        while i < self.keys.len()
            invariant
                i <= self.keys@.len(),
                orig == old(self)@.keys,
                tbl_distinct(orig),
                slot@ == slotv,
                self.inited == old(self).inited,
                orig == slots_v(self.keys@),
                orig.len() == self.keys@.len(),
                forall|j: int|
                    0 <= j < self.keys@.len() ==> orig[j] == ((#[trigger] self.keys@[j]).0@,
                    self.keys@[j].1@),
                forall|j: int| 0 <= j < i ==> (#[trigger] orig[j]).0 != key@,
            decreases self.keys@.len() - i,
        {
            let hit = {
                let (k, _) = &self.keys[i];
                crate::strutil::string_eq_str(k, key)
            };
            if hit {
                let ghost pre = self.keys@;
                self.keys.set(i, (key.to_owned(), slot));
                proof {
                    lemma_slots_v(self.keys@);
                    lemma_tbl_upsert_update(orig, key@, i as int);
                    assert(self.keys@[i as int].0@ == key@);
                    assert(self.keys@[i as int].1@ == slotv);
                    assert forall|j: int|
                        0 <= j < self.keys@.len() implies slots_v(self.keys@)[j] == orig.update(
                        i as int,
                        (key@, slotv),
                    )[j] by {
                        assert(slots_v(self.keys@)[j] == ((self.keys@[j]).0@, self.keys@[j].1@));
                        if j != i {
                            assert(self.keys@[j] == pre[j]);
                            assert(orig[j] == ((pre[j]).0@, pre[j].1@));
                        }
                    }
                    assert(slots_v(self.keys@) =~= orig.update(i as int, (key@, slotv)));
                    lemma_tbl_upsert(orig, key@, slotv);
                }
                return ;
            }
            i = i + 1;
        }
        let ghost pre = self.keys@;
        self.keys.push((key.to_owned(), slot));
        proof {
            lemma_slots_v(self.keys@);
            lemma_tbl_upsert_push(orig, key@);
            assert forall|j: int|
                0 <= j < self.keys@.len() implies slots_v(self.keys@)[j] == orig.push(
                (key@, slotv),
            )[j] by {
                if j < pre.len() {
                    assert(self.keys@[j] == pre[j]);
                }
                assert(slots_v(self.keys@)[j] == ((self.keys@[j]).0@, self.keys@[j].1@));
            }
            assert(slots_v(self.keys@) =~= orig.push((key@, slotv)));
            lemma_tbl_upsert(orig, key@, slotv);
        }
    }
}

/// An upsert whose key already sits at first position `i` is an in-place
/// update.
pub proof fn lemma_tbl_upsert_update<T>(t: Seq<(Seq<char>, T)>, k: Seq<char>, i: int)
    requires
        0 <= i < t.len(),
        t[i].0 == k,
        forall|j: int| 0 <= j < i ==> (#[trigger] t[j]).0 != k,
    ensures
        forall|v: T| #[trigger] tbl_upsert(t, k, v) == t.update(i, (k, v)),
{
    assert forall|v: T| #[trigger] tbl_upsert(t, k, v) == t.update(i, (k, v)) by {
        lemma_tbl_upsert_update_one(t, k, v, i);
    }
}

proof fn lemma_tbl_upsert_update_one<T>(t: Seq<(Seq<char>, T)>, k: Seq<char>, v: T, i: int)
    requires
        0 <= i < t.len(),
        t[i].0 == k,
        forall|j: int| 0 <= j < i ==> (#[trigger] t[j]).0 != k,
    ensures
        tbl_upsert(t, k, v) == t.update(i, (k, v)),
    decreases i,
{
    let rest = t.subrange(1, t.len() as int);
    if i == 0 {
        assert(tbl_upsert(t, k, v) =~= t.update(0, (k, v)));
    } else {
        assert(t[0].0 != k);
        assert(rest[i - 1].0 == k);
        assert(forall|j: int| 0 <= j < i - 1 ==> (#[trigger] rest[j]).0 != k);
        lemma_tbl_upsert_update_one(rest, k, v, i - 1);
        assert(tbl_upsert(t, k, v) =~= t.update(i, (k, v)));
    }
}

/// An upsert whose key is absent is a push.
pub proof fn lemma_tbl_upsert_push<T>(t: Seq<(Seq<char>, T)>, k: Seq<char>)
    requires
        forall|j: int| 0 <= j < t.len() ==> (#[trigger] t[j]).0 != k,
    ensures
        forall|v: T| #[trigger] tbl_upsert(t, k, v) == t.push((k, v)),
    decreases t.len(),
{
    assert forall|v: T| #[trigger] tbl_upsert(t, k, v) == t.push((k, v)) by {
        lemma_tbl_upsert_push_one(t, k, v);
    }
}

proof fn lemma_tbl_upsert_push_one<T>(t: Seq<(Seq<char>, T)>, k: Seq<char>, v: T)
    requires
        forall|j: int| 0 <= j < t.len() ==> (#[trigger] t[j]).0 != k,
    ensures
        tbl_upsert(t, k, v) == t.push((k, v)),
    decreases t.len(),
{
    if t.len() == 0 {
        assert(tbl_upsert(t, k, v) =~= t.push((k, v)));
    } else {
        let rest = t.subrange(1, t.len() as int);
        assert(forall|j: int| 0 <= j < rest.len() ==> (#[trigger] rest[j]).0 != k);
        lemma_tbl_upsert_push_one(rest, k, v);
        assert(tbl_upsert(t, k, v) =~= t.push((k, v)));
    }
}

/// The list elements that survive serialization: scalars other than `Null`.
pub open spec fn keep_present(s: Seq<ItemV>) -> Seq<ItemV>
    decreases s.len(),
{
    if s.len() == 0 {
        Seq::empty()
    } else if is_scalar(s.last()) && s.last() != ItemV::Null {
        keep_present(s.drop_last()).push(s.last())
    } else {
        keep_present(s.drop_last())
    }
}

/// The table entries that survive serialization: those with scalar,
/// non-`Null` values.
pub open spec fn keep_present_entries(s: Seq<(Seq<char>, ItemV)>) -> Seq<(Seq<char>, ItemV)>
    decreases s.len(),
{
    if s.len() == 0 {
        Seq::empty()
    } else if is_scalar(s.last().1) && s.last().1 != ItemV::Null {
        keep_present_entries(s.drop_last()).push(s.last())
    } else {
        keep_present_entries(s.drop_last())
    }
}

/// A value as it is written out: `Null` members of lists and tables are
/// omitted, as are any members of unsupported shape.
pub open spec fn emitted_value(v: ItemV) -> ItemV {
    match v {
        ItemV::List(items) => ItemV::List(keep_present(items)),
        ItemV::Dict(entries) => ItemV::Dict(keep_present_entries(entries)),
        _ => v,
    }
}

/// A value of supported shape with no nested `Null` is written out as
/// itself.
pub proof fn lemma_emitted_id(v: ItemV)
    requires
        item_wf(v),
        null_free_inner(v),
    ensures
        emitted_value(v) == v,
{
    match v {
        ItemV::List(items) => {
            lemma_keep_present_id(items);
            assert(emitted_value(v) =~= v);
        },
        ItemV::Dict(entries) => {
            lemma_keep_present_entries_id(entries);
            assert(emitted_value(v) =~= v);
        },
        _ => (),
    }
}

proof fn lemma_keep_present_id(s: Seq<ItemV>)
    requires
        forall|i: int| 0 <= i < s.len() ==> is_scalar(#[trigger] s[i]),
        forall|i: int| 0 <= i < s.len() ==> #[trigger] s[i] != ItemV::Null,
    ensures
        keep_present(s) == s,
    decreases s.len(),
{
    if s.len() > 0 {
        lemma_keep_present_id(s.drop_last());
    }
    assert(keep_present(s) =~= s);
}

proof fn lemma_keep_present_entries_id(s: Seq<(Seq<char>, ItemV)>)
    requires
        forall|i: int| 0 <= i < s.len() ==> is_scalar((#[trigger] s[i]).1),
        forall|i: int| 0 <= i < s.len() ==> (#[trigger] s[i]).1 != ItemV::Null,
    ensures
        keep_present_entries(s) == s,
    decreases s.len(),
{
    if s.len() > 0 {
        lemma_keep_present_entries_id(s.drop_last());
    }
    assert(keep_present_entries(s) =~= s);
}

/// A written-out value has the supported shape, carries no `Null` anywhere,
/// and keeps its table keys' distinctness.
pub proof fn lemma_emitted_wf(v: ItemV)
    ensures
        item_wf(emitted_value(v)),
        null_free_inner(emitted_value(v)),
        is_scalar(v) ==> emitted_value(v) == v,
        v is List ==> emitted_value(v) is List,
        v is Dict ==> emitted_value(v) is Dict,
{
    match v {
        ItemV::List(items) => lemma_keep_present_wf(items),
        ItemV::Dict(entries) => lemma_keep_present_entries_wf(entries),
        _ => (),
    }
}

proof fn lemma_keep_present_wf(s: Seq<ItemV>)
    ensures
        forall|i: int|
            0 <= i < keep_present(s).len() ==> is_scalar(#[trigger] keep_present(s)[i])
                && keep_present(s)[i] != ItemV::Null,
    decreases s.len(),
{
    if s.len() > 0 {
        lemma_keep_present_wf(s.drop_last());
        let kd = keep_present(s.drop_last());
        if is_scalar(s.last()) && s.last() != ItemV::Null {
            assert forall|i: int|
                0 <= i < keep_present(s).len() implies is_scalar(#[trigger] keep_present(s)[i])
                && keep_present(s)[i] != ItemV::Null by {
                if i < kd.len() {
                    assert(keep_present(s)[i] == kd[i]);
                } else {
                    assert(keep_present(s)[i] == s.last());
                }
            }
        }
    }
}

proof fn lemma_keep_present_entries_wf(s: Seq<(Seq<char>, ItemV)>)
    ensures
        forall|i: int|
            0 <= i < keep_present_entries(s).len() ==> is_scalar(
                (#[trigger] keep_present_entries(s)[i]).1,
            ) && keep_present_entries(s)[i].1 != ItemV::Null,
    decreases s.len(),
{
    if s.len() > 0 {
        lemma_keep_present_entries_wf(s.drop_last());
        let kd = keep_present_entries(s.drop_last());
        if is_scalar(s.last().1) && s.last().1 != ItemV::Null {
            assert forall|i: int|
                0 <= i < keep_present_entries(s).len() implies is_scalar(
                (#[trigger] keep_present_entries(s)[i]).1,
            ) && keep_present_entries(s)[i].1 != ItemV::Null by {
                if i < kd.len() {
                    assert(keep_present_entries(s)[i] == kd[i]);
                } else {
                    assert(keep_present_entries(s)[i] == s.last());
                }
            }
        }
    }
}

/// The value a section writes out for one key, if any: the default when
/// `use_default` is set, else the bound value; nothing for an unbound key
/// (when not using defaults) or a `Null` value.
pub open spec fn emitted_entry(k: Seq<char>, slot: SlotV, use_default: bool) -> Option<
    (Seq<char>, ItemV),
> {
    let chosen = if use_default {
        Option::Some(slot.default_value)
    } else {
        slot.item
    };
    match chosen {
        Option::None => Option::None,
        Option::Some(v) => if v == ItemV::Null {
            Option::None
        } else {
            Option::Some((k, emitted_value(v)))
        },
    }
}

/// The table a section writes out: one entry per key that has a value,
/// in key order.
pub open spec fn as_toml_keys(keys: Seq<(Seq<char>, SlotV)>, use_default: bool) -> Seq<
    (Seq<char>, ItemV),
>
    decreases keys.len(),
{
    if keys.len() == 0 {
        Seq::empty()
    } else {
        let rest = as_toml_keys(keys.drop_last(), use_default);
        match emitted_entry(keys.last().0, keys.last().1, use_default) {
            Option::None => rest,
            Option::Some(p) => rest.push(p),
        }
    }
}

/// What the written table contains: only keys of the section, distinct when
/// the section's are, each value of supported shape and free of `Null`.
pub proof fn lemma_as_toml_keys(keys: Seq<(Seq<char>, SlotV)>, use_default: bool)
    requires
        tbl_distinct(keys),
    ensures
        tbl_distinct(as_toml_keys(keys, use_default)),
        forall|i: int|
            0 <= i < as_toml_keys(keys, use_default).len() ==> exists|j: int|
                0 <= j < keys.len() && (#[trigger] keys[j]).0 == (#[trigger] as_toml_keys(
                    keys,
                    use_default,
                )[i]).0,
        forall|i: int|
            0 <= i < as_toml_keys(keys, use_default).len() ==> item_wf(
                (#[trigger] as_toml_keys(keys, use_default)[i]).1,
            ) && null_free_inner(as_toml_keys(keys, use_default)[i].1) && as_toml_keys(
                keys,
                use_default,
            )[i].1 != ItemV::Null,
    decreases keys.len(),
{
    let r = as_toml_keys(keys, use_default);
    if keys.len() > 0 {
        let kd = keys.drop_last();
        assert(tbl_distinct(kd));
        lemma_as_toml_keys(kd, use_default);
        let rest = as_toml_keys(kd, use_default);
        match emitted_entry(keys.last().0, keys.last().1, use_default) {
            Option::None => {
                assert forall|i: int|
                    0 <= i < r.len() implies exists|j: int|
                        0 <= j < keys.len() && (#[trigger] keys[j]).0 == (#[trigger] r[i]).0 by {
                    let j = choose|j: int| 0 <= j < kd.len() && (#[trigger] kd[j]).0 == rest[i].0;
                    assert(keys[j] == kd[j]);
                }
            },
            Option::Some(p) => {
                let chosen = if use_default {
                    keys.last().1.default_value
                } else {
                    keys.last().1.item->0
                };
                lemma_emitted_wf(chosen);
                assert forall|i: int|
                    0 <= i < r.len() implies exists|j: int|
                        0 <= j < keys.len() && (#[trigger] keys[j]).0 == (#[trigger] r[i]).0 by {
                    if i < rest.len() {
                        assert(r[i] == rest[i]);
                        let j = choose|j: int|
                            0 <= j < kd.len() && (#[trigger] kd[j]).0 == rest[i].0;
                        assert(keys[j] == kd[j]);
                    } else {
                        assert(r[i] == p);
                        assert(keys[keys.len() - 1].0 == p.0);
                    }
                }
                assert forall|i: int, j: int| 0 <= i < j < r.len() implies (#[trigger] r[i]).0
                    != (#[trigger] r[j]).0 by {
                    if j < rest.len() {
                        assert(r[i] == rest[i] && r[j] == rest[j]);
                    } else {
                        assert(r[j] == p);
                        assert(r[i] == rest[i]);
                        let j2 = choose|j2: int|
                            0 <= j2 < kd.len() && (#[trigger] kd[j2]).0 == rest[i].0;
                        assert(keys[j2] == kd[j2]);
                        assert(keys[j2].0 != keys.last().0);
                    }
                }
                assert forall|i: int|
                    0 <= i < r.len() implies item_wf((#[trigger] r[i]).1) && null_free_inner(
                    r[i].1,
                ) && r[i].1 != ItemV::Null by {
                    if i < rest.len() {
                        assert(r[i] == rest[i]);
                    } else {
                        assert(r[i] == p);
                    }
                }
            },
        }
    }
}

/// What the written table holds for each key of the section.
pub proof fn lemma_as_toml_get(keys: Seq<(Seq<char>, SlotV)>, use_default: bool, i: int)
    requires
        tbl_distinct(keys),
        0 <= i < keys.len(),
    ensures
        tbl_get(as_toml_keys(keys, use_default), keys[i].0) == match emitted_entry(
            keys[i].0,
            keys[i].1,
            use_default,
        ) {
            Option::None => Option::<ItemV>::None,
            Option::Some(p) => Option::Some(p.1),
        },
    decreases keys.len(),
{
    let r = as_toml_keys(keys, use_default);
    let kd = keys.drop_last();
    assert(tbl_distinct(kd));
    lemma_as_toml_keys(keys, use_default);
    lemma_as_toml_keys(kd, use_default);
    let rest = as_toml_keys(kd, use_default);
    if i < keys.len() - 1 {
        lemma_as_toml_get(kd, use_default, i);
        assert(kd[i] == keys[i]);
        match emitted_entry(keys.last().0, keys.last().1, use_default) {
            Option::None => {
            },
            Option::Some(p) => {
                // the appended entry has the last key, which differs from keys[i].0
                assert(keys.last().0 != keys[i].0);
                lemma_tbl_get_push_other(rest, p, keys[i].0);
            },
        }
    } else {
        // i is the last key
        match emitted_entry(keys.last().0, keys.last().1, use_default) {
            Option::None => {
                // last key is absent from rest since rest only holds earlier keys
                assert forall|j: int| 0 <= j < rest.len() implies (#[trigger] rest[j]).0
                    != keys[i].0 by {
                    let j2 = choose|j2: int|
                        0 <= j2 < kd.len() && (#[trigger] kd[j2]).0 == rest[j].0;
                    assert(keys[j2] == kd[j2]);
                }
                lemma_tbl_get_absent(rest, keys[i].0);
            },
            Option::Some(p) => {
                assert forall|j: int| 0 <= j < rest.len() implies (#[trigger] rest[j]).0
                    != keys[i].0 by {
                    let j2 = choose|j2: int|
                        0 <= j2 < kd.len() && (#[trigger] kd[j2]).0 == rest[j].0;
                    assert(keys[j2] == kd[j2]);
                }
                lemma_tbl_get_push_last(rest, p);
            },
        }
    }
}

/// Pushing an entry does not change lookups of other keys.
pub proof fn lemma_tbl_get_push_other<T>(t: Seq<(Seq<char>, T)>, p: (Seq<char>, T), k: Seq<char>)
    requires
        p.0 != k,
    ensures
        tbl_get(t.push(p), k) == tbl_get(t, k),
    decreases t.len(),
{
    let tp = t.push(p);
    if t.len() == 0 {
        assert(tp.subrange(1, tp.len() as int) =~= Seq::<(Seq<char>, T)>::empty());
    } else {
        assert(tp[0] == t[0]);
        if t[0].0 != k {
            assert(tp.subrange(1, tp.len() as int) =~= t.subrange(1, t.len() as int).push(p));
            lemma_tbl_get_push_other(t.subrange(1, t.len() as int), p, k);
        }
    }
}

/// Pushing an entry whose key is absent makes lookups of that key find it.
pub proof fn lemma_tbl_get_push_last<T>(t: Seq<(Seq<char>, T)>, p: (Seq<char>, T))
    requires
        forall|j: int| 0 <= j < t.len() ==> (#[trigger] t[j]).0 != p.0,
    ensures
        tbl_get(t.push(p), p.0) == Option::Some(p.1),
    decreases t.len(),
{
    let tp = t.push(p);
    if t.len() == 0 {
        assert(tp[0] == p);
    } else {
        assert(tp[0] == t[0]);
        assert(tp.subrange(1, tp.len() as int) =~= t.subrange(1, t.len() as int).push(p));
        assert(forall|j: int|
            0 <= j < t.len() - 1 ==> (#[trigger] t.subrange(1, t.len() as int)[j]).0 != p.0);
        lemma_tbl_get_push_last(t.subrange(1, t.len() as int), p);
    }
}

impl ConfigItem {
    /// This value as it is written out: `Null` and unsupported members are
    /// dropped from lists and tables.
    pub fn emit_value(&self) -> (r: ConfigItem)
        ensures
            r@ == emitted_value(self@),
    {
        match self {
            ConfigItem::List(items) => {
                proof {
                    lemma_items_v(items@);
                }
                let ghost full = items_v(items@);
                let mut out: Vec<ConfigItem> = Vec::new();
                let mut i: usize = 0;
                while i < items.len()
                    invariant
                        i <= items@.len(),
                        full == items_v(items@),
                        full.len() == items@.len(),
                        forall|j: int| 0 <= j < items@.len() ==> full[j] == item_v(#[trigger] items@[j]),
                        items_v(out@) == keep_present(full.subrange(0, i as int)),
                    decreases items@.len() - i,
                {
                    let ghost pre = full.subrange(0, i as int);
                    let ghost cur = full.subrange(0, i + 1 as int);
                    proof {
                        assert(cur.drop_last() =~= pre);
                        assert(cur.last() == item_v(items@[i as int]));
                    }
                    let keep = {
                        let e = &items[i];
                        match e {
                            ConfigItem::Null => false,
                            ConfigItem::List(_) => false,
                            ConfigItem::Dict(_) => false,
                            _ => true,
                        }
                    };
                    if keep {
                        let ghost old_out = out@;
                        let e = items[i].clone();
                        out.push(e);
                        proof {
                            assert(out@.drop_last() =~= old_out);
                            assert(item_v(out@.last()) == item_v(items@[i as int]));
                            assert(items_v(out@) == items_v(old_out).push(
                                item_v(items@[i as int]),
                            ));
                        }
                    }
                    i = i + 1;
                }
                proof {
                    assert(full.subrange(0, items@.len() as int) =~= full);
                }
                ConfigItem::List(out)
            },
            ConfigItem::Dict(entries) => {
                proof {
                    lemma_entries_v(entries@);
                }
                let ghost full = entries_v(entries@);
                let mut out: Vec<(String, ConfigItem)> = Vec::new();
                let mut i: usize = 0;
                while i < entries.len()
                    invariant
                        i <= entries@.len(),
                        full == entries_v(entries@),
                        full.len() == entries@.len(),
                        forall|j: int|
                            0 <= j < entries@.len() ==> full[j] == ((#[trigger] entries@[j]).0@,
                            item_v(entries@[j].1)),
                        entries_v(out@) == keep_present_entries(full.subrange(0, i as int)),
                    decreases entries@.len() - i,
                {
                    let ghost pre = full.subrange(0, i as int);
                    let ghost cur = full.subrange(0, i + 1 as int);
                    proof {
                        assert(cur.drop_last() =~= pre);
                        assert(cur.last() == (entries@[i as int].0@, item_v(entries@[i as int].1)));
                    }
                    let (k, v) = &entries[i];
                    let keep = match v {
                        ConfigItem::Null => false,
                        ConfigItem::List(_) => false,
                        ConfigItem::Dict(_) => false,
                        _ => true,
                    };
                    if keep {
                        let ghost old_out = out@;
                        let kk = k.clone();
                        let vv = v.clone();
                        out.push((kk, vv));
                        proof {
                            assert(out@.drop_last() =~= old_out);
                            assert(out@.last().0@ == entries@[i as int].0@);
                            assert(item_v(out@.last().1) == item_v(entries@[i as int].1));
                            assert(entries_v(out@) == entries_v(old_out).push(
                                (entries@[i as int].0@, item_v(entries@[i as int].1)),
                            ));
                        }
                    }
                    i = i + 1;
                }
                proof {
                    assert(full.subrange(0, entries@.len() as int) =~= full);
                }
                ConfigItem::Dict(out)
            },
            other => other.clone(),
        }
    }
}

impl ConfigStoragePy {
    /// The table this section writes out: defaults when `default` is set,
    /// else the currently bound values; unbound and `Null` keys are omitted.
    pub fn as_toml(&self, default: bool) -> (r: Vec<(String, ConfigItem)>)
        ensures
            entries_v(r@) == as_toml_keys(self@.keys, default),
    {
        proof {
            lemma_slots_v(self.keys@);
        }
        let ghost full = self@.keys;
        let mut out: Vec<(String, ConfigItem)> = Vec::new();
        let mut i: usize = 0;
        while i < self.keys.len()
            invariant
                i <= self.keys@.len(),
                full == slots_v(self.keys@),
                full.len() == self.keys@.len(),
                forall|j: int|
                    0 <= j < self.keys@.len() ==> full[j] == ((#[trigger] self.keys@[j]).0@,
                    self.keys@[j].1@),
                entries_v(out@) == as_toml_keys(full.subrange(0, i as int), default),
            decreases self.keys@.len() - i,
        {
            let ghost pre = full.subrange(0, i as int);
            let ghost cur = full.subrange(0, i + 1 as int);
            proof {
                assert(cur.drop_last() =~= pre);
                assert(cur.last() == full[i as int]);
            }
            let (k, slot) = &self.keys[i];
            let chosen: Option<&ConfigItem> = if default {
                Some(&slot.default_value)
            } else {
                match &slot.item {
                    Some(c) => Some(c),
                    None => None,
                }
            };
            match chosen {
                None => {
                    proof {
                        assert(emitted_entry(cur.last().0, cur.last().1, default) is None);
                    }
                },
                Some(c) => {
                    if let ConfigItem::Null = c {
                        proof {
                            assert(emitted_entry(cur.last().0, cur.last().1, default) is None);
                        }
                    } else {
                        let ghost old_out = out@;
                        let kk = k.clone();
                        let vv = c.emit_value();
                        out.push((kk, vv));
                        proof {
                            assert(out@.drop_last() =~= old_out);
                            assert(out@.last().0@ == full[i as int].0);
                            assert(item_v(out@.last().1) == emitted_value(c@));
                            assert(emitted_entry(cur.last().0, cur.last().1, default)
                                == Option::Some((full[i as int].0, emitted_value(c@))));
                            assert(entries_v(out@) == entries_v(old_out).push(
                                (full[i as int].0, emitted_value(c@)),
                            ));
                        }
                    }
                },
            }
            i = i + 1;
        }
        proof {
            assert(full.subrange(0, self.keys@.len() as int) =~= full);
        }
        out
    }
}

/// The schema built from a sequence of declared defaults: each name maps to
/// an unbound key whose default is the declared value, reduced to the
/// supported shape; a repeated name replaces the earlier default.
pub open spec fn build_keys(d: Seq<(Seq<char>, ItemV)>) -> Seq<(Seq<char>, SlotV)>
    decreases d.len(),
{
    if d.len() == 0 {
        Seq::empty()
    } else if crate::toml_text::tv_ok(sanitized(d.last().1)) {
        tbl_upsert(
            build_keys(d.drop_last()),
            d.last().0,
            SlotV { item: Option::None, default_value: sanitized(d.last().1) },
        )
    } else {
        build_keys(d.drop_last())
    }
}

/// A built schema always has distinct names.
pub proof fn lemma_build_keys_distinct(d: Seq<(Seq<char>, ItemV)>)
    ensures
        tbl_distinct(build_keys(d)),
    decreases d.len(),
{
    if d.len() > 0 {
        lemma_build_keys_distinct(d.drop_last());
        if crate::toml_text::tv_ok(sanitized(d.last().1)) {
            lemma_tbl_upsert(
                build_keys(d.drop_last()),
                d.last().0,
                SlotV { item: Option::None, default_value: sanitized(d.last().1) },
            );
        }
    }
}

impl ConfigStoragePy {
    /// A section declaring the given defaults, none bound yet.
    pub fn new(defaults: Vec<(String, ConfigItem)>) -> (r: Self)
        ensures
            !r@.inited,
            r.wf(),
            r@.keys == build_keys(entries_v(defaults@)),
            crate::toml_text::slots_ok(r@.keys),
    {
        proof {
            lemma_entries_v(defaults@);
        }
        let ghost dv = entries_v(defaults@);
        let mut r = Self::new_empty();
        let mut i: usize = 0;
        while i < defaults.len()
            invariant
                i <= defaults@.len(),
                dv == entries_v(defaults@),
                dv.len() == defaults@.len(),
                forall|j: int|
                    0 <= j < defaults@.len() ==> dv[j] == ((#[trigger] defaults@[j]).0@,
                    item_v(defaults@[j].1)),
                !r@.inited,
                r.wf(),
                r@.keys == build_keys(dv.subrange(0, i as int)),
            decreases defaults@.len() - i,
        {
            let ghost pre = dv.subrange(0, i as int);
            let ghost cur = dv.subrange(0, i + 1 as int);
            proof {
                assert(cur.drop_last() =~= pre);
                assert(cur.last() == dv[i as int]);
            }
            let (k, v) = &defaults[i];
            let sane = v.sanitized();
            proof {
                lemma_sanitized_id(sane@);
            }
            if crate::toml_text::value_admissible(&sane) {
                r.upsert_key(k.as_str(), ConfigItemPy::new_uninit(sane));
            }
            i = i + 1;
        }
        proof {
            assert(dv.subrange(0, defaults@.len() as int) =~= dv);
            lemma_build_keys_ok(dv);
        }
        r
    }

    /// Whether the section declares a key of this name.
    pub fn has_key(&self, key: &str) -> (r: bool)
        ensures
            r == tbl_has(self@.keys, key@),
    {
        proof {
            lemma_slots_v(self.keys@);
        }
        let mut i: usize = 0;
        while i < self.keys.len()
            invariant
                i <= self.keys@.len(),
                slots_v(self.keys@).len() == self.keys@.len(),
                forall|j: int|
                    0 <= j < self.keys@.len() ==> #[trigger] slots_v(self.keys@)[j] == (
                    self.keys@[j].0@,
                    self.keys@[j].1@,
                ),
                forall|j: int| 0 <= j < i ==> (#[trigger] slots_v(self.keys@)[j]).0 != key@,
            decreases self.keys@.len() - i,
        {
            let (k, _) = &self.keys[i];
            if crate::strutil::string_eq_str(k, key) {
                proof {
                    lemma_tbl_get_found(slots_v(self.keys@), key@, i as int);
                }
                return true;
            }
            i = i + 1;
        }
        proof {
            lemma_tbl_get_absent(slots_v(self.keys@), key@);
        }
        false
    }

    /// Add one key, or replace its default.
    ///
    /// Returns `false` and changes nothing when the key exists and `replace`
    /// is not set; otherwise the key's default becomes the given value
    /// reduced to the supported shape, with no value bound, and the call
    /// returns `true`.
    pub fn add_item(&mut self, key: &str, value: ConfigItem, replace: bool) -> (r: bool)
        requires
            old(self).wf(),
        ensures
            final(self).wf(),
            r == (crate::toml_text::tv_ok(sanitized(value@)) && (replace || !tbl_has(
                old(self)@.keys,
                key@,
            ))),
            !r ==> final(self)@ == old(self)@,
            r ==> final(self)@.keys == tbl_upsert(
                old(self)@.keys,
                key@,
                SlotV { item: Option::None, default_value: sanitized(value@) },
            ) && final(self)@.inited == old(self)@.inited,
            crate::toml_text::slots_ok(old(self)@.keys) ==> crate::toml_text::slots_ok(
                final(self)@.keys,
            ),
    {
        let sane = value.sanitized();
        proof {
            lemma_sanitized_id(sane@);
        }
        if !crate::toml_text::value_admissible(&sane) {
            return false;
        }
        if self.has_key(key) && !replace {
            return false;
        }
        proof {
            lemma_tbl_upsert(
                self@.keys,
                key@,
                SlotV { item: Option::None, default_value: sane@ },
            );
        }
        self.upsert_key(key, ConfigItemPy::new_uninit(sane));
        proof {
            if crate::toml_text::slots_ok(old(self)@.keys) {
                lemma_upsert_slots_ok(
                    old(self)@.keys,
                    key@,
                    SlotV { item: Option::None, default_value: sanitized(value@) },
                );
            }
        }
        true
    }

    /// Bind a file table to this section.
    ///
    /// Every declared key present in the table is read with shape checking;
    /// every key the table omits falls back to a copy of its default. The
    /// section counts as bound afterwards. Reading the same table again
    /// leaves the state unchanged.
    pub fn read_toml(&mut self, table: &Vec<(String, ConfigItem)>)
        requires
            old(self).wf(),
        ensures
            final(self).wf(),
            final(self)@ == storage_read(old(self)@, entries_v(table@)),
            crate::toml_text::slots_ok(old(self)@.keys) && crate::toml_text::table_values_ok(
                entries_v(table@),
            ) ==> crate::toml_text::slots_ok(final(self)@.keys),
    {
        proof {
            lemma_slots_v(self.keys@);
        }
        let ghost full = self@.keys;
        let ghost tv = entries_v(table@);
        let ghost expect = storage_read(self@, tv);
        let mut new_keys: Vec<(String, ConfigItemPy)> = Vec::new();
        let mut i: usize = 0;
        while i < self.keys.len()
            invariant
                i <= self.keys@.len(),
                full == slots_v(self.keys@),
                full.len() == self.keys@.len(),
                forall|j: int|
                    0 <= j < self.keys@.len() ==> full[j] == ((#[trigger] self.keys@[j]).0@,
                    self.keys@[j].1@),
                tv == entries_v(table@),
                expect == storage_read(StorageV { keys: full, inited: self.inited }, tv),
                expect.keys.len() == full.len(),
                new_keys@.len() == i,
                forall|j: int|
                    0 <= j < i ==> ((#[trigger] new_keys@[j]).0@, new_keys@[j].1@)
                        == expect.keys[j],
            decreases self.keys@.len() - i,
        {
            let (k, slot) = &self.keys[i];
            let mut updated = slot.clone();
            match table_get(table, k.as_str()) {
                Some(v) => {
                    updated.read_toml(v);
                },
                None => {
                    updated.sync_default();
                },
            }
            proof {
                assert(expect.keys[i as int].0 == full[i as int].0);
            }
            new_keys.push((k.clone(), updated));
            i = i + 1;
        }
        self.keys = new_keys;
        self.inited = true;
        proof {
            lemma_slots_v(self.keys@);
            assert forall|j: int|
                0 <= j < self.keys@.len() implies slots_v(self.keys@)[j] == expect.keys[j] by {
                assert(((self.keys@[j]).0@, self.keys@[j].1@) == expect.keys[j]);
            }
            assert(slots_v(self.keys@) =~= expect.keys);
            assert(final(self)@ =~= expect);
            if crate::toml_text::slots_ok(old(self)@.keys) && crate::toml_text::table_values_ok(
                tv,
            ) {
                lemma_storage_read_slots_ok(old(self)@, tv);
            }
        }
    }

    /// The key slot stored under the given name, if any.
    fn get_slot(&self, key: &str) -> (r: Option<&ConfigItemPy>)
        ensures
            match r {
                Option::Some(s) => tbl_get(self@.keys, key@) == Option::Some(s@),
                Option::None => tbl_get(self@.keys, key@) is None,
            },
    {
        proof {
            lemma_slots_v(self.keys@);
        }
        let mut i: usize = 0;
        while i < self.keys.len()
            invariant
                i <= self.keys@.len(),
                slots_v(self.keys@).len() == self.keys@.len(),
                forall|j: int|
                    0 <= j < self.keys@.len() ==> #[trigger] slots_v(self.keys@)[j] == (
                    self.keys@[j].0@,
                    self.keys@[j].1@,
                ),
                forall|j: int| 0 <= j < i ==> (#[trigger] slots_v(self.keys@)[j]).0 != key@,
            decreases self.keys@.len() - i,
        {
            let (k, slot) = &self.keys[i];
            if crate::strutil::string_eq_str(k, key) {
                proof {
                    lemma_tbl_get_found(slots_v(self.keys@), key@, i as int);
                }
                return Some(slot);
            }
            i = i + 1;
        }
        proof {
            lemma_tbl_get_absent(slots_v(self.keys@), key@);
        }
        None
    }
}

/// Whether a bound (or unbound) section holds a value at the given place:
/// a first-level key, or a key inside a first-level table value.
pub open spec fn storage_have_value(st: StorageV, l1: Seq<char>, l2: Option<Seq<char>>) -> bool {
    if !st.inited {
        false
    } else {
        match tbl_get(st.keys, l1) {
            Option::None => false,
            Option::Some(slot) => match l2 {
                Option::None => true,
                Option::Some(k2) => match slot.item {
                    Option::Some(ItemV::Dict(es)) => tbl_has(es, k2),
                    _ => false,
                },
            },
        }
    }
}

/// The value a bound section holds at the given place, if any.
pub open spec fn storage_get_value(st: StorageV, l1: Seq<char>, l2: Option<Seq<char>>) -> Option<
    ItemV,
> {
    if !st.inited {
        Option::None
    } else {
        match tbl_get(st.keys, l1) {
            Option::None => Option::None,
            Option::Some(slot) => match l2 {
                Option::None => slot.item,
                Option::Some(k2) => match slot.item {
                    Option::Some(ItemV::Dict(es)) => tbl_get(es, k2),
                    _ => Option::None,
                },
            },
        }
    }
}

impl ConfigStoragePy {
    /// Whether the section, once bound, holds a value at the given place.
    pub fn have_value(&self, layer1: &str, layer2: Option<&str>) -> (r: bool)
        ensures
            r == storage_have_value(
                self@,
                layer1@,
                match layer2 {
                    Option::Some(s) => Option::Some(s@),
                    Option::None => Option::None,
                },
            ),
    {
        if !self.inited {
            return false;
        }
        match self.get_slot(layer1) {
            Some(slot) => match layer2 {
                Some(l2) => slot.have_item(l2),
                None => true,
            },
            None => false,
        }
    }

    /// The value the section holds at the given place, if it is bound and
    /// the place is set: a copy of a first-level value, or of a member of a
    /// first-level table value.
    pub fn get_value(&self, layer1: &str, layer2: Option<&str>) -> (r: Option<ConfigItem>)
        ensures
            match r {
                Option::Some(c) => storage_get_value(
                    self@,
                    layer1@,
                    match layer2 {
                        Option::Some(s) => Option::Some(s@),
                        Option::None => Option::None,
                    },
                ) == Option::Some(c@),
                Option::None => storage_get_value(
                    self@,
                    layer1@,
                    match layer2 {
                        Option::Some(s) => Option::Some(s@),
                        Option::None => Option::None,
                    },
                ) is None,
            },
    {
        if !self.inited {
            return None;
        }
        match self.get_slot(layer1) {
            Some(slot) => match layer2 {
                Some(l2) => match &slot.item {
                    Some(ConfigItem::Dict(entries)) => match table_get(entries, l2) {
                        Some(v) => Some(v.clone()),
                        None => None,
                    },
                    _ => None,
                },
                None => match &slot.item {
                    Some(c) => Some(c.clone()),
                    None => None,
                },
            },
            None => None,
        }
    }
}

/// Binding the same table twice gives the same section state as binding it
/// once: `read` is idempotent.
pub proof fn lemma_read_idempotent(st: StorageV, t: Seq<(Seq<char>, ItemV)>)
    ensures
        storage_read(storage_read(st, t), t) == storage_read(st, t),
{
    let once = storage_read(st, t);
    let twice = storage_read(once, t);
    assert forall|i: int| 0 <= i < once.keys.len() implies twice.keys[i] == once.keys[i] by {
        let k = st.keys[i].0;
        let s0 = st.keys[i].1;
        match tbl_get(t, k) {
            Option::Some(v) => {
                assert(once.keys[i] == (k, slot_read(s0, v)));
                assert(twice.keys[i] == (k, slot_read(slot_read(s0, v), v)));
            },
            Option::None => {},
        }
    }
    assert(twice.keys =~= once.keys);
    assert(twice =~= once);
}

/// A value of mismatched shape leaves a key untouched and never fails: in
/// particular a list arriving for a scalar default leaves the key's current
/// value (possibly unset) as it was.
pub proof fn lemma_shape_mismatch_keeps_value(s: SlotV, v: ItemV)
    ensures
        is_scalar(s.default_value) && s.default_value != ItemV::Null && !is_scalar(v)
            ==> slot_read(s, v).item == s.item,
        s.default_value is List && !(v is List) ==> slot_read(s, v).item == s.item,
        s.default_value is Dict && !(v is Dict) ==> slot_read(s, v).item == s.item,
        slot_read(s, v).default_value == s.default_value,
{
}

/// Every entry of an upserted table is the written entry or one of the
/// original entries.
proof fn lemma_tbl_upsert_members<T>(t: Seq<(Seq<char>, T)>, k: Seq<char>, v: T, i: int)
    requires
        0 <= i < tbl_upsert(t, k, v).len(),
    ensures
        tbl_upsert(t, k, v)[i] == (k, v) || exists|j: int|
            0 <= j < t.len() && (#[trigger] t[j]) == tbl_upsert(t, k, v)[i],
    decreases t.len(),
{
    let u = tbl_upsert(t, k, v);
    if t.len() == 0 {
    } else if t[0].0 == k {
        if i > 0 {
            assert(u[i] == t.subrange(1, t.len() as int)[i - 1]);
            assert(t[i] == t.subrange(1, t.len() as int)[i - 1]);
        }
    } else {
        if i > 0 {
            let rest = t.subrange(1, t.len() as int);
            assert(u[i] == tbl_upsert(rest, k, v)[i - 1]);
            lemma_tbl_upsert_members(rest, k, v, i - 1);
            if tbl_upsert(rest, k, v)[i - 1] != (k, v) {
                let j = choose|j: int|
                    0 <= j < rest.len() && (#[trigger] rest[j]) == tbl_upsert(rest, k, v)[i - 1];
                assert(t[j + 1] == rest[j]);
            }
        }
    }
}

/// Writing one recordable key keeps all keys recordable.
pub proof fn lemma_upsert_slots_ok(t: Seq<(Seq<char>, SlotV)>, k: Seq<char>, s: SlotV)
    requires
        crate::toml_text::slots_ok(t),
        crate::toml_text::tv_ok(s.default_value),
        match s.item {
            Option::Some(v) => crate::toml_text::tv_ok(v),
            Option::None => true,
        },
    ensures
        crate::toml_text::slots_ok(tbl_upsert(t, k, s)),
{
    let u = tbl_upsert(t, k, s);
    assert forall|i: int|
        0 <= i < u.len() implies crate::toml_text::tv_ok((#[trigger] u[i]).1.default_value)
        && match u[i].1.item {
        Option::Some(v) => crate::toml_text::tv_ok(v),
        Option::None => true,
    } by {
        lemma_tbl_upsert_members(t, k, s, i);
        if u[i] != (k, s) {
            let j = choose|j: int| 0 <= j < t.len() && (#[trigger] t[j]) == u[i];
        }
    }
}

/// A built schema holds only recordable defaults, none bound.
pub proof fn lemma_build_keys_ok(d: Seq<(Seq<char>, ItemV)>)
    ensures
        crate::toml_text::slots_ok(build_keys(d)),
    decreases d.len(),
{
    if d.len() > 0 {
        lemma_build_keys_ok(d.drop_last());
        if crate::toml_text::tv_ok(sanitized(d.last().1)) {
            lemma_upsert_slots_ok(
                build_keys(d.drop_last()),
                d.last().0,
                SlotV { item: Option::None, default_value: sanitized(d.last().1) },
            );
        }
    }
}

/// A value a lookup finds is the value of some entry.
pub proof fn lemma_tbl_get_is_entry<T>(t: Seq<(Seq<char>, T)>, k: Seq<char>)
    requires
        tbl_get(t, k) is Some,
    ensures
        exists|j: int|
            0 <= j < t.len() && (#[trigger] t[j]) == (k, tbl_get(t, k)->0),
    decreases t.len(),
{
    if t.len() > 0 {
        if t[0].0 == k {
            assert(t[0] == (k, tbl_get(t, k)->0));
        } else {
            let rest = t.subrange(1, t.len() as int);
            lemma_tbl_get_is_entry(rest, k);
            let j = choose|j: int|
                0 <= j < rest.len() && (#[trigger] rest[j]) == (k, tbl_get(rest, k)->0);
            assert(t[j + 1] == rest[j]);
        }
    }
}

/// Binding a table of recordable values keeps all keys recordable.
pub proof fn lemma_storage_read_slots_ok(st: StorageV, t: Seq<(Seq<char>, ItemV)>)
    requires
        crate::toml_text::slots_ok(st.keys),
        crate::toml_text::table_values_ok(t),
    ensures
        crate::toml_text::slots_ok(storage_read(st, t).keys),
{
    let keys2 = storage_read(st, t).keys;
    assert forall|i: int|
        0 <= i < keys2.len() implies crate::toml_text::tv_ok(
        (#[trigger] keys2[i]).1.default_value,
    ) && match keys2[i].1.item {
        Option::Some(v) => crate::toml_text::tv_ok(v),
        Option::None => true,
    } by {
        let k = st.keys[i].0;
        let slot = st.keys[i].1;
        match tbl_get(t, k) {
            Option::Some(v) => {
                lemma_tbl_get_is_entry(t, k);
                let j = choose|j: int| 0 <= j < t.len() && (#[trigger] t[j]) == (k, v);
                assert(crate::toml_text::tv_ok(t[j].1));
                crate::toml_text::lemma_sanitized_tv_ok(v);
                assert(keys2[i].1 == slot_read(slot, v));
            },
            Option::None => {
                assert(keys2[i].1.item == Option::Some(slot.default_value));
            },
        }
    }
}

impl ConfigStoragePy {
    /// The declared defaults as text, ready to write to a new config file.
    pub fn get_default_toml(&self) -> (r: String)
        requires
            self.wf(),
            crate::toml_text::slots_ok(self@.keys),
        ensures
            r@ == crate::toml_text::doc_text(as_toml_keys(self@.keys, true)),
    {
        let table = self.as_toml(true);
        proof {
            crate::toml_text::lemma_as_toml_doc_ok(self@.keys, true);
        }
        crate::toml_text::table_to_text(&table)
    }

    /// The currently bound values as text; unbound keys are left out.
    pub fn get_current_toml(&self) -> (r: String)
        requires
            self.wf(),
            crate::toml_text::slots_ok(self@.keys),
        ensures
            r@ == crate::toml_text::doc_text(as_toml_keys(self@.keys, false)),
    {
        let table = self.as_toml(false);
        proof {
            crate::toml_text::lemma_as_toml_doc_ok(self@.keys, false);
        }
        crate::toml_text::table_to_text(&table)
    }

    /// Parse a document and bind it to this section.
    ///
    /// A text the grammar rejects leaves the section untouched and reports
    /// where the read stopped; otherwise the parsed root table is bound
    /// exactly as `read_toml` binds it.
    pub fn read_toml_str(&mut self, value: &str) -> (r: Result<
        (),
        crate::toml_text::TomlParseError,
    >)
        requires
            old(self).wf(),
        ensures
            final(self).wf(),
            match r {
                Result::Ok(_) => crate::toml_text::parse_doc(value@) matches Option::Some(t)
                    && final(self)@ == storage_read(old(self)@, t) && (
                crate::toml_text::slots_ok(old(self)@.keys) ==> crate::toml_text::slots_ok(
                    final(self)@.keys,
                )),
                Result::Err(_) => crate::toml_text::parse_doc(value@) is None && final(self)@
                    == old(self)@,
            },
    {
        match crate::toml_text::parse_table(value) {
            Ok(table) => {
                proof {
                    assert forall|i: int|
                        0 <= i < entries_v(table@).len() implies crate::toml_text::tv_ok(
                        (#[trigger] entries_v(table@)[i]).1,
                    ) by {
                        let v = entries_v(table@)[i].1;
                        match v {
                            ItemV::Dict(es) => {
                                crate::toml_text::lemma_root_entry_tv_ok(v);
                            },
                            _ => {
                                crate::toml_text::lemma_value_ok_tv_ok(v);
                            },
                        }
                    }
                }
                self.read_toml(&table);
                proof {
                    if crate::toml_text::slots_ok(old(self)@.keys) {
                        lemma_storage_read_slots_ok(old(self)@, entries_v(table@));
                    }
                }
                Ok(())
            },
            Err(e) => Err(e),
        }
    }
}

/// The heart of the defaults round trip: writing a section's defaults out
/// and binding the parsed text back leaves every key's current value equal
/// to its default.
///
/// Defaults holding a `Null` inside a list or table are written without
/// those members, so they are left out here; a `Null` default itself is
/// simply omitted from the text and restored by the fallback.
pub proof fn lemma_default_round_trip(st: StorageV)
    requires
        tbl_distinct(st.keys),
        crate::toml_text::slots_ok(st.keys),
        forall|i: int|
            0 <= i < st.keys.len() ==> item_wf((#[trigger] st.keys[i]).1.default_value)
                && null_free_inner(st.keys[i].1.default_value),
    ensures
        crate::toml_text::parse_doc(
            crate::toml_text::doc_text(as_toml_keys(st.keys, true)),
        ) matches Option::Some(t) && {
            let st2 = storage_read(st, t);
            &&& st2.inited
            &&& st2.keys.len() == st.keys.len()
            &&& forall|i: int|
                0 <= i < st.keys.len() ==> (#[trigger] st2.keys[i]).0 == st.keys[i].0
                    && st2.keys[i].1.default_value == st.keys[i].1.default_value
                    && st2.keys[i].1.item == Option::Some(st.keys[i].1.default_value)
        },
{
    let out = as_toml_keys(st.keys, true);
    crate::toml_text::lemma_as_toml_doc_ok(st.keys, true);
    crate::toml_text::lemma_doc_round_trip(out);
    let t = crate::toml_text::parse_doc(crate::toml_text::doc_text(out))->0;
    let st2 = storage_read(st, t);
    assert forall|i: int|
        0 <= i < st.keys.len() implies (#[trigger] st2.keys[i]).0 == st.keys[i].0
        && st2.keys[i].1.default_value == st.keys[i].1.default_value && st2.keys[i].1.item
        == Option::Some(st.keys[i].1.default_value) by {
        let k = st.keys[i].0;
        let slot = st.keys[i].1;
        let dv = slot.default_value;
        lemma_as_toml_get(st.keys, true, i);
        if dv == ItemV::Null {
            assert(emitted_entry(k, slot, true) is None);
            assert(tbl_get(out, k) is None);
            assert(tbl_get(t, k) is None);
            assert(st2.keys[i].1.item == Option::Some(dv));
        } else {
            assert(emitted_entry(k, slot, true) == Option::Some((k, emitted_value(dv))));
            lemma_emitted_id(dv);
            assert(tbl_get(out, k) == Option::Some(dv));
            assert(tbl_get(t, k) == Option::Some(dv));
            assert(st2.keys[i].1 == slot_read(slot, dv));
            lemma_sanitized_id(dv);
            match dv {
                ItemV::Dict(_) => {
                    assert(slot_read(slot, dv).item == Option::Some(sanitized(dv)));
                },
                ItemV::List(_) => {
                    assert(slot_read(slot, dv).item == Option::Some(sanitized(dv)));
                },
                _ => {
                    assert(is_scalar(dv));
                    assert(slot_read(slot, dv).item == Option::Some(dv));
                },
            }
        }
    }
}

} // verus!
