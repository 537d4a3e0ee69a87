//! Metadata filtering for search results.
//!
//! A MongoDB-style query language over JSON metadata: equality, set
//! membership, numeric ranges, and `$and` / `$or` combinators, with dotted
//! paths into nested objects.
use vstd::prelude::*;
use crate::json::{JsonModel, JsonValue, json_view, elements_view, members_view, lemma_members_view, lemma_elements_view, json_equiv, json_eq, lemma_json_equiv_symmetric};

verus! {

/// Errors of filter parsing.
pub enum FilterError {
    InvalidSyntax(String),
    UnsupportedOperator(String),
    TypeMismatch { expected: String, actual: String },
}

/// The mathematical value of a `FilterError`.
pub enum FilterErrorModel {
    InvalidSyntax(Seq<char>),
    UnsupportedOperator(Seq<char>),
    TypeMismatch { expected: Seq<char>, actual: Seq<char> },
}

impl View for FilterError {
    type V = FilterErrorModel;

    open spec fn view(&self) -> FilterErrorModel {
        match self {
            FilterError::InvalidSyntax(s) => FilterErrorModel::InvalidSyntax(s@),
            FilterError::UnsupportedOperator(s) => FilterErrorModel::UnsupportedOperator(s@),
            FilterError::TypeMismatch { expected, actual } => FilterErrorModel::TypeMismatch {
                expected: expected@,
                actual: actual@,
            },
        }
    }
}

/// A metadata filter.
pub enum MetadataFilter {
    /// The field equals the value, or holds an array that contains it.
    Equals { field: String, value: JsonValue },
    /// The field equals one of the values.
    In { field: String, values: Vec<JsonValue> },
    /// The field is a number within the bounds, given by order keys; an
    /// absent bound does not constrain.
    Range { field: String, min: Option<u64>, max: Option<u64> },
    /// Every sub-filter matches.
    And(Vec<MetadataFilter>),
    /// Some sub-filter matches.
    Or(Vec<MetadataFilter>),
}

/// The mathematical value of a `MetadataFilter`.
pub enum FilterModel {
    Equals { field: Seq<char>, value: JsonModel },
    In { field: Seq<char>, values: Seq<JsonModel> },
    Range { field: Seq<char>, min: Option<u64>, max: Option<u64> },
    And(Seq<FilterModel>),
    Or(Seq<FilterModel>),
}

/// The model of a filter.
pub open spec fn filter_view(f: MetadataFilter) -> FilterModel
    decreases f, 1nat, 0int,
{
    match f {
        MetadataFilter::Equals { field, value } => FilterModel::Equals { field: field@, value: value@ },
        MetadataFilter::In { field, values } => FilterModel::In {
            field: field@,
            values: elements_view(values, values.len() as int),
        },
        MetadataFilter::Range { field, min, max } => FilterModel::Range { field: field@, min, max },
        MetadataFilter::And(fs) => FilterModel::And(filters_view(fs, fs.len() as int)),
        MetadataFilter::Or(fs) => FilterModel::Or(filters_view(fs, fs.len() as int)),
    }
}

/// The models of the first `n` filters.
pub open spec fn filters_view(fs: Vec<MetadataFilter>, n: int) -> Seq<FilterModel>
    decreases fs, 0nat, n,
{
    if n <= 0 || n > fs.len() {
        Seq::empty()
    } else {
        filters_view(fs, n - 1).push(filter_view(fs[n - 1]))
    }
}

impl View for MetadataFilter {
    type V = FilterModel;

    open spec fn view(&self) -> FilterModel {
        filter_view(*self)
    }
}

/// `filters_view` lists the models of the filters, in order.
pub proof fn lemma_filters_view(fs: Vec<MetadataFilter>, n: int)
    requires
        0 <= n <= fs.len(),
    ensures
        filters_view(fs, n).len() == n,
        forall|i: int| 0 <= i < n ==> #[trigger] filters_view(fs, n)[i] == filter_view(fs[i]),
    decreases n,
{
    if n > 0 {
        lemma_filters_view(fs, n - 1);
    }
}

// ---------------------------------------------------------------------------
// Field access
// ---------------------------------------------------------------------------

/// A path split at every `'.'`: `"a.b"` gives `["a", "b"]`, `""` gives `[""]`.
pub open spec fn split_path(s: Seq<char>) -> Seq<Seq<char>>
    decreases s.len(),
{
    if s.len() == 0 {
        seq![Seq::<char>::empty()]
    } else {
        let parts = split_path(s.drop_last());
        if s.last() == '.' {
            parts.push(Seq::<char>::empty())
        } else {
            parts.update(parts.len() - 1, parts.last().push(s.last()))
        }
    }
}

/// A split path has at least one part.
pub proof fn lemma_split_path_nonempty(s: Seq<char>)
    ensures
        split_path(s).len() >= 1,
    decreases s.len(),
{
    if s.len() > 0 {
        lemma_split_path_nonempty(s.drop_last());
    }
}

/// The index of the first member with the key.
pub open spec fn find_key(members: Seq<(Seq<char>, JsonModel)>, key: Seq<char>) -> Option<int>
    decreases members.len(),
{
    if members.len() == 0 {
        None
    } else if members[0].0 == key {
        Some(0)
    } else {
        match find_key(members.drop_first(), key) {
            Some(i) => Some(i + 1),
            None => None,
        }
    }
}

/// `find_key` gives the first index with the key.
pub proof fn lemma_find_key(members: Seq<(Seq<char>, JsonModel)>, key: Seq<char>)
    ensures
        match find_key(members, key) {
            Some(i) => 0 <= i < members.len() && members[i].0 == key
                && forall|j: int| 0 <= j < i ==> #[trigger] members[j].0 != key,
            None => forall|j: int| 0 <= j < members.len() ==> #[trigger] members[j].0 != key,
        },
    decreases members.len(),
{
    if members.len() > 0 {
        lemma_find_key(members.drop_first(), key);
        if members[0].0 != key {
            match find_key(members.drop_first(), key) {
                Some(i) => {
                    assert forall|j: int| 0 <= j < i + 1 implies #[trigger] members[j].0 != key by {
                        if j > 0 {
                            assert(members[j] == members.drop_first()[j - 1]);
                        }
                    }
                },
                None => {
                    assert forall|j: int| 0 <= j < members.len() implies #[trigger] members[j].0 != key by {
                        if j > 0 {
                            assert(members[j] == members.drop_first()[j - 1]);
                        }
                    }
                },
            }
        }
    }
}

/// The value of the first member with the key, in an object.
pub open spec fn member_value(v: JsonModel, key: Seq<char>) -> Option<JsonModel> {
    match v {
        JsonModel::Object(ms) => match find_key(ms, key) {
            Some(i) => Some(ms[i].1),
            None => None,
        },
        _ => None,
    }
}

/// Follows the parts of a path through nested objects.
pub open spec fn walk_path(v: JsonModel, parts: Seq<Seq<char>>) -> Option<JsonModel>
    decreases parts.len(),
{
    if parts.len() == 0 {
        Some(v)
    } else {
        match walk_path(v, parts.drop_last()) {
            Some(w) => member_value(w, parts.last()),
            None => None,
        }
    }
}

/// The value at a dotted path: `"user.id"` reads `metadata["user"]["id"]`.
pub open spec fn field_at(metadata: JsonModel, path: Seq<char>) -> Option<JsonModel> {
    walk_path(metadata, split_path(path))
}

/// The first member of an object with the key, by reference.
pub(crate) fn lookup_member<'a>(v: &'a JsonValue, key: &String) -> (r: Option<&'a JsonValue>)
    ensures
        match r {
            Some(x) => member_value(v@, key@) == Some(x@),
            None => member_value(v@, key@) is None,
        },
{
    match v {
        JsonValue::Object(ms) => {
            proof {
                lemma_members_view(*ms, ms.len() as int);
                lemma_find_key(members_view(*ms, ms.len() as int), key@);
            }
            let ghost mv = members_view(*ms, ms.len() as int);
            let mut i: usize = 0;
            while i < ms.len()
                invariant
                    i <= ms.len(),
                    mv == members_view(*ms, ms.len() as int),
                    mv.len() == ms.len(),
                    forall|j: int| 0 <= j < ms.len() ==> #[trigger] mv[j] == (ms[j].0@, json_view(ms[j].1)),
                    forall|j: int| 0 <= j < i ==> #[trigger] mv[j].0 != key@,
                    v@ == JsonModel::Object(mv),
                    match find_key(mv, key@) {
                        Some(k) => 0 <= k < mv.len() && mv[k].0 == key@
                            && forall|j: int| 0 <= j < k ==> #[trigger] mv[j].0 != key@,
                        None => forall|j: int| 0 <= j < mv.len() ==> #[trigger] mv[j].0 != key@,
                    },
                decreases ms.len() - i,
            {
                if ms[i].0 == *key {
                    let ghost k = find_key(mv, key@);
                    assert(mv[i as int].0 == key@);
                    assert(k == Some(i as int)) by {
                        match k {
                            Some(kk) => {
                                if kk < i {
                                    assert(mv[kk].0 != key@);
                                } else if kk > i {
                                    assert(mv[i as int].0 != key@);
                                }
                            },
                            None => {
                                assert(mv[i as int].0 != key@);
                            },
                        }
                    }
                    return Some(&ms[i].1);
                }
                i = i + 1;
            }
            None
        },
        _ => None,
    }
}

/// Reads a field by a dotted path.
///
/// Each part of the path, split at `'.'`, selects the member of that name in
/// the object reached so far; the result is `None` where a part names no
/// member or the value reached is not an object.
pub fn get_field<'a>(metadata: &'a JsonValue, path: &str) -> (r: Option<&'a JsonValue>)
    ensures
        match r {
            Some(x) => field_at(metadata@, path@) == Some(x@),
            None => field_at(metadata@, path@) is None,
        },
{
    let n = path.unicode_len();
    let mut current: Option<&JsonValue> = Some(metadata);
    let mut seg_start: usize = 0;
    let mut i: usize = 0;
    proof {
        assert(path@.take(0) =~= Seq::<char>::empty());
        assert(split_path(path@.take(0)) =~= seq![Seq::<char>::empty()]);
        assert(split_path(path@.take(0)).drop_last() =~= Seq::<Seq<char>>::empty());
        assert(path@.subrange(0, 0) =~= Seq::<char>::empty());
    }
    while i < n
        invariant
            n == path@.len(),
            seg_start <= i <= n,
            split_path(path@.take(i as int)).len() >= 1,
            split_path(path@.take(i as int)).last() == path@.subrange(seg_start as int, i as int),
            match current {
                Some(c) => walk_path(metadata@, split_path(path@.take(i as int)).drop_last()) == Some(c@),
                None => walk_path(metadata@, split_path(path@.take(i as int)).drop_last()) is None,
            },
        decreases n - i,
    {
        let c = path.get_char(i);
        let ghost before = split_path(path@.take(i as int));
        proof {
            assert(path@.take(i + 1).drop_last() =~= path@.take(i as int));
            assert(path@.take(i + 1).last() == c);
            lemma_split_path_nonempty(path@.take(i as int));
        }
        if c == '.' {
            let seg = path.substring_char(seg_start, i);
            let key = String::from_str(seg);
            current = match current {
                Some(cur) => lookup_member(cur, &key),
                None => None,
            };
            seg_start = i + 1;
            proof {
                let after = split_path(path@.take(i + 1));
                assert(after == before.push(Seq::<char>::empty()));
                assert(after.drop_last() =~= before);
                assert(before.drop_last().push(before.last()) =~= before);
                assert(path@.subrange(seg_start as int, i + 1) =~= Seq::<char>::empty());
            }
        } else {
            proof {
                let after = split_path(path@.take(i + 1));
                assert(after == before.update(before.len() - 1, before.last().push(c)));
                assert(after.drop_last() =~= before.drop_last());
                assert(path@.subrange(seg_start as int, i + 1) =~= path@.subrange(seg_start as int, i as int).push(c));
            }
        }
        i = i + 1;
    }
    let seg = path.substring_char(seg_start, n);
    let key = String::from_str(seg);
    proof {
        assert(path@.take(n as int) =~= path@);
        let parts = split_path(path@);
        assert(parts.drop_last().push(parts.last()) =~= parts);
    }
    match current {
        Some(cur) => lookup_member(cur, &key),
        None => None,
    }
}

// ---------------------------------------------------------------------------
// Matching
// ---------------------------------------------------------------------------

/// Some element of the sequence equals the value.
pub open spec fn seq_has(xs: Seq<JsonModel>, x: JsonModel) -> bool {
    exists|i: int| 0 <= i < xs.len() && #[trigger] json_equiv(xs[i], x)
}

/// The metadata matches the filter.
pub open spec fn filter_matches(f: FilterModel, metadata: JsonModel) -> bool
    decreases f, 1nat, 0int,
{
    match f {
        FilterModel::Equals { field, value } => match field_at(metadata, field) {
            Some(JsonModel::Array(items)) => seq_has(items, value),
            Some(fv) => json_equiv(fv, value),
            None => false,
        },
        FilterModel::In { field, values } => match field_at(metadata, field) {
            Some(fv) => seq_has(values, fv),
            None => false,
        },
        FilterModel::Range { field, min, max } => match field_at(metadata, field) {
            Some(JsonModel::Number(n)) => (match min {
                Some(lo) => n.order_key >= lo,
                None => true,
            }) && (match max {
                Some(hi) => n.order_key <= hi,
                None => true,
            }),
            _ => false,
        },
        FilterModel::And(fs) => all_match(fs, metadata, fs.len() as int),
        FilterModel::Or(fs) => any_match(fs, metadata, fs.len() as int),
    }
}

/// Each of the first `n` filters matches.
pub open spec fn all_match(fs: Seq<FilterModel>, metadata: JsonModel, n: int) -> bool
    decreases fs, 0nat, n,
{
    if n <= 0 || n > fs.len() {
        true
    } else {
        all_match(fs, metadata, n - 1) && filter_matches(fs[n - 1], metadata)
    }
}

/// One of the first `n` filters matches.
pub open spec fn any_match(fs: Seq<FilterModel>, metadata: JsonModel, n: int) -> bool
    decreases fs, 0nat, n,
{
    if n <= 0 || n > fs.len() {
        false
    } else {
        any_match(fs, metadata, n - 1) || filter_matches(fs[n - 1], metadata)
    }
}

/// `all_match` over a prefix holds exactly when every filter in it matches.
pub proof fn lemma_all_match(fs: Seq<FilterModel>, metadata: JsonModel, n: int)
    requires
        0 <= n <= fs.len(),
    ensures
        all_match(fs, metadata, n) <==> forall|i: int| 0 <= i < n ==> #[trigger] filter_matches(fs[i], metadata),
    decreases n,
{
    if n > 0 {
        lemma_all_match(fs, metadata, n - 1);
        if all_match(fs, metadata, n) {
            assert forall|i: int| 0 <= i < n implies #[trigger] filter_matches(fs[i], metadata) by {
                if i < n - 1 {
                    assert(filter_matches(fs[i], metadata));
                }
            }
        }
        if forall|i: int| 0 <= i < n ==> #[trigger] filter_matches(fs[i], metadata) {
            assert(forall|i: int| 0 <= i < n - 1 ==> #[trigger] filter_matches(fs[i], metadata));
            assert(filter_matches(fs[n - 1], metadata));
        }
    }
}

/// `any_match` over a prefix holds exactly when some filter in it matches.
pub proof fn lemma_any_match(fs: Seq<FilterModel>, metadata: JsonModel, n: int)
    requires
        0 <= n <= fs.len(),
    ensures
        any_match(fs, metadata, n) <==> exists|i: int| 0 <= i < n && #[trigger] filter_matches(fs[i], metadata),
    decreases n,
{
    if n > 0 {
        lemma_any_match(fs, metadata, n - 1);
        if filter_matches(fs[n - 1], metadata) {
            assert(exists|i: int| 0 <= i < n && #[trigger] filter_matches(fs[i], metadata));
        }
    }
}

/// `And` matches exactly when every sub-filter matches (so an empty `And`
/// matches everything), `Or` exactly when some sub-filter matches (so an
/// empty `Or` matches nothing), and a field filter never matches metadata
/// without the field.
pub proof fn law_combinators_and_absent_fields(fs: Seq<FilterModel>, metadata: JsonModel, field: Seq<char>,
    value: JsonModel, values: Seq<JsonModel>, min: Option<u64>, max: Option<u64>)
    ensures
        filter_matches(FilterModel::And(fs), metadata) <==> forall|i: int| 0 <= i < fs.len() ==> #[trigger] filter_matches(fs[i], metadata),
        filter_matches(FilterModel::Or(fs), metadata) <==> exists|i: int| 0 <= i < fs.len() && #[trigger] filter_matches(fs[i], metadata),
        field_at(metadata, field) is None ==> !filter_matches(FilterModel::Equals { field, value }, metadata)
            && !filter_matches(FilterModel::In { field, values }, metadata)
            && !filter_matches(FilterModel::Range { field, min, max }, metadata),
{
    lemma_all_match(fs, metadata, fs.len() as int);
    lemma_any_match(fs, metadata, fs.len() as int);
}

/// Decides whether some element of the array equals the value.
fn contains_value(xs: &Vec<JsonValue>, x: &JsonValue) -> (r: bool)
    ensures
        r == seq_has(elements_view(*xs, xs.len() as int), x@),
{
    proof {
        lemma_elements_view(*xs, xs.len() as int);
    }
    let ghost xm = elements_view(*xs, xs.len() as int);
    let mut i: usize = 0;
    while i < xs.len()
        invariant
            i <= xs.len(),
            xm == elements_view(*xs, xs.len() as int),
            xm.len() == xs.len(),
            forall|j: int| 0 <= j < xs.len() ==> #[trigger] xm[j] == json_view(xs[j]),
            forall|j: int| 0 <= j < i ==> !#[trigger] json_equiv(xm[j], x@),
        decreases xs.len() - i,
    {
        if json_eq(&xs[i], x) {
            assert(json_equiv(xm[i as int], x@));
            return true;
        }
        i = i + 1;
    }
    false
}

impl MetadataFilter {
    /// Checks whether the metadata matches this filter.
    ///
    /// `Equals` holds when the field equals the value or is an array that
    /// contains it; `In` when the field equals one of the values; `Range`
    /// when the field is a number within the given bounds; an empty `And`
    /// matches everything and an empty `Or` nothing.
    pub fn matches(&self, metadata: &JsonValue) -> (r: bool)
        ensures
            r == filter_matches(self@, metadata@),
        decreases self,
    {
        match self {
            MetadataFilter::Equals { field, value } => {
                match get_field(metadata, field.as_str()) {
                    Some(field_value) => {
                        match field_value {
                            JsonValue::Array(arr) => contains_value(arr, value),
                            _ => json_eq(field_value, value),
                        }
                    },
                    None => false,
                }
            },
            MetadataFilter::In { field, values } => {
                match get_field(metadata, field.as_str()) {
                    Some(field_value) => {
                        let r = contains_value(values, field_value);
                        proof {
                            lemma_elements_view(*values, values.len() as int);
                            let xm = elements_view(*values, values.len() as int);
                            if r {
                                let i = choose|i: int| 0 <= i < xm.len() && #[trigger] json_equiv(xm[i], field_value@);
                                lemma_json_equiv_symmetric(xm[i], field_value@);
                            } else {
                                assert forall|i: int| 0 <= i < xm.len() implies !#[trigger] json_equiv(xm[i], field_value@) by {
                                }
                            }
                        }
                        r
                    },
                    None => false,
                }
            },
            MetadataFilter::Range { field, min, max } => {
                match get_field(metadata, field.as_str()) {
                    Some(JsonValue::Number(num)) => {
                        let min_ok = match min {
                            Some(lo) => num.order_key >= *lo,
                            None => true,
                        };
                        let max_ok = match max {
                            Some(hi) => num.order_key <= *hi,
                            None => true,
                        };
                        min_ok && max_ok
                    },
                    _ => false,
                }
            },
            MetadataFilter::And(filters) => {
                proof {
                    lemma_filters_view(*filters, filters.len() as int);
                }
                let ghost fm = filters_view(*filters, filters.len() as int);
                let mut i: usize = 0;
                while i < filters.len()
                    invariant
                        i <= filters.len(),
                        fm == filters_view(*filters, filters.len() as int),
                        fm.len() == filters.len(),
                        forall|j: int| 0 <= j < filters.len() ==> #[trigger] fm[j] == filter_view(filters[j]),
                        forall|j: int| 0 <= j < i ==> #[trigger] filter_matches(fm[j], metadata@),
                        *self == MetadataFilter::And(*filters),
                    decreases filters.len() - i,
                {
                    proof {
                        assert(decreases_to!(*self => (*self)->And_0));
                        assert(decreases_to!(*filters => filters[i as int]));
                    }
                    if !filters[i].matches(metadata) {
                        proof {
                            lemma_all_match(fm, metadata@, fm.len() as int);
                            assert(!filter_matches(fm[i as int], metadata@));
                        }
                        return false;
                    }
                    i = i + 1;
                }
                proof {
                    lemma_all_match(fm, metadata@, fm.len() as int);
                }
                true
            },
            MetadataFilter::Or(filters) => {
                proof {
                    lemma_filters_view(*filters, filters.len() as int);
                }
                let ghost fm = filters_view(*filters, filters.len() as int);
                let mut i: usize = 0;
                while i < filters.len()
                    invariant
                        i <= filters.len(),
                        fm == filters_view(*filters, filters.len() as int),
                        fm.len() == filters.len(),
                        forall|j: int| 0 <= j < filters.len() ==> #[trigger] fm[j] == filter_view(filters[j]),
                        forall|j: int| 0 <= j < i ==> !#[trigger] filter_matches(fm[j], metadata@),
                        *self == MetadataFilter::Or(*filters),
                    decreases filters.len() - i,
                {
                    proof {
                        assert(decreases_to!(*self => (*self)->Or_0));
                        assert(decreases_to!(*filters => filters[i as int]));
                    }
                    if filters[i].matches(metadata) {
                        proof {
                            lemma_any_match(fm, metadata@, fm.len() as int);
                            assert(filter_matches(fm[i as int], metadata@));
                        }
                        return true;
                    }
                    i = i + 1;
                }
                proof {
                    lemma_any_match(fm, metadata@, fm.len() as int);
                }
                false
            },
        }
    }
}

// ---------------------------------------------------------------------------
// Parsing
// ---------------------------------------------------------------------------

/// The key is an operator: it starts with `'$'`.
pub open spec fn is_operator_key(k: Seq<char>) -> bool {
    k.len() > 0 && k[0] == '$'
}

/// The index of the first member whose key is an operator not in `allowed`.
pub open spec fn first_unsupported(ms: Seq<(Seq<char>, JsonModel)>, allowed: Seq<Seq<char>>) -> Option<int>
    decreases ms.len(),
{
    if ms.len() == 0 {
        None
    } else if is_operator_key(ms[0].0) && !allowed.contains(ms[0].0) {
        Some(0)
    } else {
        match first_unsupported(ms.drop_first(), allowed) {
            Some(i) => Some(i + 1),
            None => None,
        }
    }
}

/// `first_unsupported` gives the first index of an unsupported operator key.
pub proof fn lemma_first_unsupported(ms: Seq<(Seq<char>, JsonModel)>, allowed: Seq<Seq<char>>)
    ensures
        match first_unsupported(ms, allowed) {
            Some(i) => 0 <= i < ms.len() && is_operator_key(ms[i].0) && !allowed.contains(ms[i].0)
                && forall|j: int| 0 <= j < i ==> !(is_operator_key(#[trigger] ms[j].0) && !allowed.contains(ms[j].0)),
            None => forall|j: int| 0 <= j < ms.len() ==> !(is_operator_key(#[trigger] ms[j].0) && !allowed.contains(ms[j].0)),
        },
    decreases ms.len(),
{
    if ms.len() > 0 {
        lemma_first_unsupported(ms.drop_first(), allowed);
        assert forall|j: int| 0 < j < ms.len() implies #[trigger] ms[j] == ms.drop_first()[j - 1] by {}
    }
}

/// The order key of a number, when the value is one.
pub open spec fn number_key(v: Option<JsonModel>) -> Option<u64> {
    match v {
        Some(JsonModel::Number(n)) => Some(n.order_key),
        _ => None,
    }
}

/// The operators a field filter accepts.
pub open spec fn field_operators() -> Seq<Seq<char>> {
    seq!["$in"@, "$gte"@, "$lte"@]
}

/// The operators a filter accepts at its top level.
pub open spec fn combinator_operators() -> Seq<Seq<char>> {
    seq!["$and"@, "$or"@]
}

/// The message for a field given as an empty object.
pub open spec fn empty_object_message(field: Seq<char>) -> Seq<char> {
    "Empty object for field '"@ + field + "' - must specify a value or operator"@
}

/// The filter a single field denotes: `{"$in": [..]}` a set, `$gte` / `$lte`
/// a range, an object of no operators an equality with that object, and any
/// other value an equality with the value.
pub open spec fn spec_parse_field(field: Seq<char>, value: JsonModel) -> Result<FilterModel, FilterErrorModel> {
    match value {
        JsonModel::Object(ops) => match find_key(ops, "$in"@) {
            Some(i) => match ops[i].1 {
                JsonModel::Array(vals) => Ok(FilterModel::In { field, values: vals }),
                _ => Err(FilterErrorModel::InvalidSyntax("$in value must be an array"@)),
            },
            None => {
                let min = number_key(member_value(value, "$gte"@));
                let max = number_key(member_value(value, "$lte"@));
                if min is Some || max is Some {
                    Ok(FilterModel::Range { field, min, max })
                } else {
                    match first_unsupported(ops, field_operators()) {
                        Some(i) => Err(FilterErrorModel::UnsupportedOperator(ops[i].0)),
                        None => if ops.len() == 0 {
                            Err(FilterErrorModel::InvalidSyntax(empty_object_message(field)))
                        } else {
                            Ok(FilterModel::Equals { field, value })
                        },
                    }
                }
            },
        },
        _ => Ok(FilterModel::Equals { field, value }),
    }
}

/// The field filters of the first `n` members, or the first error.
pub open spec fn parse_fields(ms: Seq<(Seq<char>, JsonModel)>, n: int) -> Result<Seq<FilterModel>, FilterErrorModel>
    decreases n,
{
    if n <= 0 || n > ms.len() {
        Ok(Seq::empty())
    } else {
        match parse_fields(ms, n - 1) {
            Err(e) => Err(e),
            Ok(fs) => match spec_parse_field(ms[n - 1].0, ms[n - 1].1) {
                Ok(f) => Ok(fs.push(f)),
                Err(e) => Err(e),
            },
        }
    }
}

/// The filter a JSON value denotes.
///
/// An object with `$and` (or else `$or`) combines the filters of the array
/// under it; any other operator key is unsupported; a single member is a
/// field filter; several members are the `And` of their field filters, in
/// key order.  Anything but an object is invalid.
pub open spec fn spec_from_json(v: JsonModel) -> Result<FilterModel, FilterErrorModel>
    decreases v, 1nat, 0int,
{
    match v {
        JsonModel::Object(ms) => match find_key(ms, "$and"@) {
            Some(i) => {
                proof {
                    lemma_find_key(ms, "$and"@);
                }
                spec_parse_combinator(ms[i].1, true)
            },
            None => match find_key(ms, "$or"@) {
                Some(i) => {
                    proof {
                        lemma_find_key(ms, "$or"@);
                    }
                    spec_parse_combinator(ms[i].1, false)
                },
                None => match first_unsupported(ms, combinator_operators()) {
                    Some(i) => {
                        proof {
                            lemma_first_unsupported(ms, combinator_operators());
                        }
                        Err(FilterErrorModel::UnsupportedOperator(ms[i].0))
                    },
                    None => if ms.len() == 1 {
                        spec_parse_field(ms[0].0, ms[0].1)
                    } else {
                        match parse_fields(ms, ms.len() as int) {
                            Ok(fs) => Ok(FilterModel::And(fs)),
                            Err(e) => Err(e),
                        }
                    },
                },
            },
        },
        _ => Err(FilterErrorModel::InvalidSyntax("Filter must be a JSON object"@)),
    }
}

/// The `And` (or `Or`) of the filters of an array's elements.
pub open spec fn spec_parse_combinator(v: JsonModel, is_and: bool) -> Result<FilterModel, FilterErrorModel>
    decreases v, 0nat, 0int,
{
    match v {
        JsonModel::Array(items) => match parse_items(items, items.len() as int) {
            Ok(fs) => if is_and {
                Ok(FilterModel::And(fs))
            } else {
                Ok(FilterModel::Or(fs))
            },
            Err(e) => Err(e),
        },
        _ => if is_and {
            Err(FilterErrorModel::InvalidSyntax("$and must be an array"@))
        } else {
            Err(FilterErrorModel::InvalidSyntax("$or must be an array"@))
        },
    }
}

/// The filters of the first `n` elements, or the first error.
pub open spec fn parse_items(items: Seq<JsonModel>, n: int) -> Result<Seq<FilterModel>, FilterErrorModel>
    decreases items, 0nat, n,
{
    if n <= 0 || n > items.len() {
        Ok(Seq::empty())
    } else {
        match parse_items(items, n - 1) {
            Err(e) => Err(e),
            Ok(fs) => match spec_from_json(items[n - 1]) {
                Ok(f) => Ok(fs.push(f)),
                Err(e) => Err(e),
            },
        }
    }
}

/// The model of a parse result.
pub open spec fn parse_result_view(r: Result<MetadataFilter, FilterError>) -> Result<FilterModel, FilterErrorModel> {
    match r {
        Ok(f) => Ok(f@),
        Err(e) => Err(e@),
    }
}

/// The keys of a list of strings.
pub open spec fn strings_view(v: Seq<String>) -> Seq<Seq<char>> {
    v.map_values(|s: String| s@)
}

/// The index of the first member with the key.
fn find_member(ms: &Vec<(String, JsonValue)>, key: &String) -> (r: Option<usize>)
    ensures
        match r {
            Some(i) => i < ms.len() && find_key(members_view(*ms, ms.len() as int), key@) == Some(i as int),
            None => find_key(members_view(*ms, ms.len() as int), key@) is None,
        },
{
    proof {
        lemma_members_view(*ms, ms.len() as int);
        lemma_find_key(members_view(*ms, ms.len() as int), key@);
    }
    let ghost mv = members_view(*ms, ms.len() as int);
    let mut i: usize = 0;
    while i < ms.len()
        invariant
            i <= ms.len(),
            mv == members_view(*ms, ms.len() as int),
            mv.len() == ms.len(),
            forall|j: int| 0 <= j < ms.len() ==> #[trigger] mv[j] == (ms[j].0@, json_view(ms[j].1)),
            forall|j: int| 0 <= j < i ==> #[trigger] mv[j].0 != key@,
            match find_key(mv, key@) {
                Some(k) => 0 <= k < mv.len() && mv[k].0 == key@
                    && forall|j: int| 0 <= j < k ==> #[trigger] mv[j].0 != key@,
                None => forall|j: int| 0 <= j < mv.len() ==> #[trigger] mv[j].0 != key@,
            },
        decreases ms.len() - i,
    {
        if ms[i].0 == *key {
            let ghost k = find_key(mv, key@);
            assert(mv[i as int].0 == key@);
            assert(k == Some(i as int)) by {
                match k {
                    Some(kk) => {
                        if kk < i {
                            assert(mv[kk].0 != key@);
                        } else if kk > i {
                            assert(mv[i as int].0 != key@);
                        }
                    },
                    None => {
                        assert(mv[i as int].0 != key@);
                    },
                }
            }
            return Some(i);
        }
        i = i + 1;
    }
    None
}

/// Whether the key is an operator.
fn starts_with_dollar(k: &String) -> (r: bool)
    ensures
        r == is_operator_key(k@),
{
    let s = k.as_str();
    let n = s.unicode_len();
    n > 0 && s.get_char(0) == '$'
}

/// Whether the list holds the key.
fn holds_key(allowed: &Vec<String>, k: &String) -> (r: bool)
    ensures
        r == strings_view(allowed@).contains(k@),
{
    let mut i: usize = 0;
    while i < allowed.len()
        invariant
            i <= allowed.len(),
            forall|j: int| 0 <= j < i ==> #[trigger] allowed@[j]@ != k@,
        decreases allowed.len() - i,
    {
        if allowed[i] == *k {
            assert(strings_view(allowed@)[i as int] == k@);
            return true;
        }
        i = i + 1;
    }
    proof {
        if strings_view(allowed@).contains(k@) {
            let j = choose|j: int| 0 <= j < strings_view(allowed@).len() && strings_view(allowed@)[j] == k@;
            assert(allowed@[j]@ == k@);
        }
    }
    false
}

/// The index of the first member whose key is an operator not allowed.
fn first_unsupported_index(ms: &Vec<(String, JsonValue)>, allowed: &Vec<String>) -> (r: Option<usize>)
    ensures
        match r {
            Some(i) => i < ms.len() && first_unsupported(members_view(*ms, ms.len() as int), strings_view(allowed@)) == Some(i as int),
            None => first_unsupported(members_view(*ms, ms.len() as int), strings_view(allowed@)) is None,
        },
{
    let ghost mv = members_view(*ms, ms.len() as int);
    let ghost al = strings_view(allowed@);
    proof {
        lemma_members_view(*ms, ms.len() as int);
        lemma_first_unsupported(mv, al);
    }
    let mut i: usize = 0;
    while i < ms.len()
        invariant
            i <= ms.len(),
            mv == members_view(*ms, ms.len() as int),
            al == strings_view(allowed@),
            mv.len() == ms.len(),
            forall|j: int| 0 <= j < ms.len() ==> #[trigger] mv[j] == (ms[j].0@, json_view(ms[j].1)),
            forall|j: int| 0 <= j < i ==> !(is_operator_key(#[trigger] mv[j].0) && !al.contains(mv[j].0)),
            match first_unsupported(mv, al) {
                Some(k) => 0 <= k < mv.len() && is_operator_key(mv[k].0) && !al.contains(mv[k].0)
                    && forall|j: int| 0 <= j < k ==> !(is_operator_key(#[trigger] mv[j].0) && !al.contains(mv[j].0)),
                None => forall|j: int| 0 <= j < mv.len() ==> !(is_operator_key(#[trigger] mv[j].0) && !al.contains(mv[j].0)),
            },
        decreases ms.len() - i,
    {
        if starts_with_dollar(&ms[i].0) && !holds_key(allowed, &ms[i].0) {
            let ghost k = first_unsupported(mv, al);
            assert(is_operator_key(mv[i as int].0) && !al.contains(mv[i as int].0));
            assert(k == Some(i as int)) by {
                match k {
                    Some(kk) => {
                        if kk < i {
                            assert(!(is_operator_key(mv[kk].0) && !al.contains(mv[kk].0)));
                        } else if kk > i {
                            assert(!(is_operator_key(mv[i as int].0) && !al.contains(mv[i as int].0)));
                        }
                    },
                    None => {
                        assert(!(is_operator_key(mv[i as int].0) && !al.contains(mv[i as int].0)));
                    },
                }
            }
            return Some(i);
        }
        i = i + 1;
    }
    None
}

/// A list of the three operator keys of field filters.
fn field_operator_keys() -> (r: Vec<String>)
    ensures
        strings_view(r@) == field_operators(),
{
    let mut r: Vec<String> = Vec::new();
    r.push(String::from_str("$in"));
    r.push(String::from_str("$gte"));
    r.push(String::from_str("$lte"));
    assert(strings_view(r@) =~= field_operators());
    r
}

/// A list of the two combinator keys.
fn combinator_keys() -> (r: Vec<String>)
    ensures
        strings_view(r@) == combinator_operators(),
{
    let mut r: Vec<String> = Vec::new();
    r.push(String::from_str("$and"));
    r.push(String::from_str("$or"));
    assert(strings_view(r@) =~= combinator_operators());
    r
}

/// The order key of a member's value, when it is a number.
fn member_number_key(value: &JsonValue, key: &String) -> (r: Option<u64>)
    ensures
        r == number_key(member_value(value@, key@)),
{
    match lookup_member(value, key) {
        Some(JsonValue::Number(n)) => Some(n.order_key),
        _ => None,
    }
}

impl MetadataFilter {
    /// Parses a filter from JSON.
    ///
    /// `{"field": value}` is an equality, `{"field": {"$in": [..]}}` a set,
    /// `{"field": {"$gte": a, "$lte": b}}` a range; `$and` and `$or` combine
    /// the filters of an array; several members are combined by `And`.
    pub fn from_json(value: &JsonValue) -> (r: Result<MetadataFilter, FilterError>)
        ensures
            parse_result_view(r) == spec_from_json(value@),
        decreases value, 2nat,
    {
        match value {
            JsonValue::Object(map) => {
                let ghost mv = members_view(*map, map.len() as int);
                proof {
                    lemma_members_view(*map, map.len() as int);
                    assert(value@ == JsonModel::Object(mv));
                }
                let and_key = String::from_str("$and");
                match find_member(map, &and_key) {
                    Some(i) => {
                        proof {
                            assert(decreases_to!(*value => (*value)->Object_0));
                            assert(decreases_to!(*map => map[i as int]));
                            assert(decreases_to!(map[i as int] => map[i as int].1));
                        }
                        return Self::parse_and(&map[i].1);
                    },
                    None => {},
                }
                let or_key = String::from_str("$or");
                match find_member(map, &or_key) {
                    Some(i) => {
                        proof {
                            assert(decreases_to!(*value => (*value)->Object_0));
                            assert(decreases_to!(*map => map[i as int]));
                            assert(decreases_to!(map[i as int] => map[i as int].1));
                        }
                        return Self::parse_or(&map[i].1);
                    },
                    None => {},
                }
                let allowed = combinator_keys();
                match first_unsupported_index(map, &allowed) {
                    Some(i) => {
                        return Err(FilterError::UnsupportedOperator(map[i].0.clone()));
                    },
                    None => {},
                }
                if map.len() == 1 {
                    return Self::parse_field_filter(&map[0].0, &map[0].1);
                }
                let mut filters: Vec<MetadataFilter> = Vec::new();
                let mut i: usize = 0;
                while i < map.len()
                    invariant
                        i <= map.len(),
                        mv == members_view(*map, map.len() as int),
                        mv.len() == map.len(),
                        forall|j: int| 0 <= j < map.len() ==> #[trigger] mv[j] == (map[j].0@, json_view(map[j].1)),
                        filters.len() == i,
                        parse_fields(mv, i as int) == Ok::<Seq<FilterModel>, FilterErrorModel>(filters_view(filters, i as int)),
                        find_key(mv, "$and"@) is None,
                        find_key(mv, "$or"@) is None,
                        first_unsupported(mv, combinator_operators()) is None,
                        map.len() != 1,
                        value@ == JsonModel::Object(mv),
                    decreases map.len() - i,
                {
                    match Self::parse_field_filter(&map[i].0, &map[i].1) {
                        Ok(f) => {
                            let ghost old_filters = filters;
                            filters.push(f);
                            proof {
                                lemma_filters_view(old_filters, i as int);
                                lemma_filters_view(filters, i + 1);
                                assert(filters_view(filters, i + 1) =~= filters_view(old_filters, i as int).push(filter_view(filters[i as int])));
                            }
                        },
                        Err(e) => {
                            proof {
                                assert(mv[i as int] == (map[i as int].0@, json_view(map[i as int].1)));
                                assert(parse_fields(mv, i as int + 1) == Err::<Seq<FilterModel>, FilterErrorModel>(e@));
                                lemma_parse_fields_stops(mv, i as int + 1, map.len() as int);
                            }
                            return Err(e);
                        },
                    }
                    i = i + 1;
                }
                Ok(MetadataFilter::And(filters))
            },
            _ => Err(FilterError::InvalidSyntax(String::from_str("Filter must be a JSON object"))),
        }
    }

    /// Parses the array under `$and` into an `And` filter.
    fn parse_and(value: &JsonValue) -> (r: Result<MetadataFilter, FilterError>)
        ensures
            parse_result_view(r) == spec_parse_combinator(value@, true),
        decreases value, 1nat,
    {
        match value {
            JsonValue::Array(items) => {
                proof {
                    lemma_elements_view(*items, items.len() as int);
                }
                match Self::parse_items_of(value, items) {
                    Ok(fs) => Ok(MetadataFilter::And(fs)),
                    Err(e) => Err(e),
                }
            },
            _ => Err(FilterError::InvalidSyntax(String::from_str("$and must be an array"))),
        }
    }

    /// Parses the array under `$or` into an `Or` filter.
    fn parse_or(value: &JsonValue) -> (r: Result<MetadataFilter, FilterError>)
        ensures
            parse_result_view(r) == spec_parse_combinator(value@, false),
        decreases value, 1nat,
    {
        match value {
            JsonValue::Array(items) => {
                proof {
                    lemma_elements_view(*items, items.len() as int);
                }
                match Self::parse_items_of(value, items) {
                    Ok(fs) => Ok(MetadataFilter::Or(fs)),
                    Err(e) => Err(e),
                }
            },
            _ => Err(FilterError::InvalidSyntax(String::from_str("$or must be an array"))),
        }
    }

    /// Parses each element of an array, stopping at the first error.
    fn parse_items_of(value: &JsonValue, items: &Vec<JsonValue>) -> (r: Result<Vec<MetadataFilter>, FilterError>)
        requires
            *value == JsonValue::Array(*items),
        ensures
            match r {
                Ok(fs) => parse_items(elements_view(*items, items.len() as int), items.len() as int)
                    == Ok::<Seq<FilterModel>, FilterErrorModel>(filters_view(fs, fs.len() as int)),
                Err(e) => parse_items(elements_view(*items, items.len() as int), items.len() as int)
                    == Err::<Seq<FilterModel>, FilterErrorModel>(e@),
            },
        decreases value, 0nat,
    {
        let ghost im = elements_view(*items, items.len() as int);
        proof {
            lemma_elements_view(*items, items.len() as int);
        }
        let mut filters: Vec<MetadataFilter> = Vec::new();
        let mut i: usize = 0;
        while i < items.len()
            invariant
                i <= items.len(),
                im == elements_view(*items, items.len() as int),
                im.len() == items.len(),
                forall|j: int| 0 <= j < items.len() ==> #[trigger] im[j] == json_view(items[j]),
                filters.len() == i,
                parse_items(im, i as int) == Ok::<Seq<FilterModel>, FilterErrorModel>(filters_view(filters, i as int)),
                *value == JsonValue::Array(*items),
            decreases items.len() - i,
        {
            proof {
                assert(decreases_to!(*value => (*value)->Array_0));
                assert(decreases_to!(*items => items[i as int]));
            }
            match Self::from_json(&items[i]) {
                Ok(f) => {
                    let ghost old_filters = filters;
                    filters.push(f);
                    proof {
                        lemma_filters_view(old_filters, i as int);
                        lemma_filters_view(filters, i + 1);
                        assert(filters_view(filters, i + 1) =~= filters_view(old_filters, i as int).push(filter_view(filters[i as int])));
                    }
                },
                Err(e) => {
                    proof {
                        lemma_parse_items_stops(im, i as int + 1, items.len() as int);
                    }
                    return Err(e);
                },
            }
            i = i + 1;
        }
        Ok(filters)
    }

    /// Parses a single field filter.
    fn parse_field_filter(field: &String, value: &JsonValue) -> (r: Result<MetadataFilter, FilterError>)
        ensures
            parse_result_view(r) == spec_parse_field(field@, value@),
    {
        match value {
            JsonValue::Object(ops) => {
                let ghost om = members_view(*ops, ops.len() as int);
                proof {
                    lemma_members_view(*ops, ops.len() as int);
                    assert(value@ == JsonModel::Object(om));
                }
                let in_key = String::from_str("$in");
                match find_member(ops, &in_key) {
                    Some(i) => {
                        return Self::parse_in(field, &ops[i].1);
                    },
                    None => {},
                }
                let gte_key = String::from_str("$gte");
                let lte_key = String::from_str("$lte");
                let min = member_number_key(value, &gte_key);
                let max = member_number_key(value, &lte_key);
                if min.is_some() || max.is_some() {
                    return Ok(MetadataFilter::Range { field: field.clone(), min, max });
                }
                let allowed = field_operator_keys();
                match first_unsupported_index(ops, &allowed) {
                    Some(i) => {
                        return Err(FilterError::UnsupportedOperator(ops[i].0.clone()));
                    },
                    None => {},
                }
                if ops.len() == 0 {
                    let mut msg = String::from_str("Empty object for field '");
                    msg.append(field.as_str());
                    msg.append("' - must specify a value or operator");
                    return Err(FilterError::InvalidSyntax(msg));
                }
                Ok(MetadataFilter::Equals { field: field.clone(), value: value.clone() })
            },
            _ => Ok(MetadataFilter::Equals { field: field.clone(), value: value.clone() }),
        }
    }

    /// Parses the array under `$in` into an `In` filter.
    fn parse_in(field: &String, value: &JsonValue) -> (r: Result<MetadataFilter, FilterError>)
        ensures
            parse_result_view(r) == (match value@ {
                JsonModel::Array(vals) => Ok::<FilterModel, FilterErrorModel>(FilterModel::In { field: field@, values: vals }),
                _ => Err(FilterErrorModel::InvalidSyntax("$in value must be an array"@)),
            }),
    {
        match value {
            JsonValue::Array(values) => {
                let copy = value.clone();
                match copy {
                    JsonValue::Array(vs) => Ok(MetadataFilter::In { field: field.clone(), values: vs }),
                    _ => Err(FilterError::InvalidSyntax(String::from_str("$in value must be an array"))),
                }
            },
            _ => Err(FilterError::InvalidSyntax(String::from_str("$in value must be an array"))),
        }
    }
}

/// Once a field fails to parse, all the fields fail with its error.
proof fn lemma_parse_fields_stops(ms: Seq<(Seq<char>, JsonModel)>, n: int, m: int)
    requires
        0 < n <= m <= ms.len(),
        parse_fields(ms, n) is Err,
    ensures
        parse_fields(ms, m) == parse_fields(ms, n),
    decreases m - n,
{
    if m > n {
        lemma_parse_fields_stops(ms, n, m - 1);
    }
}

/// Once an element fails to parse, the whole list fails with its error.
proof fn lemma_parse_items_stops(items: Seq<JsonModel>, n: int, m: int)
    requires
        0 < n <= m <= items.len(),
        parse_items(items, n) is Err,
    ensures
        parse_items(items, m) == parse_items(items, n),
    decreases m - n,
{
    if m > n {
        lemma_parse_items_stops(items, n, m - 1);
    }
}


// ---------------------------------------------------------------------------
// Laws of matching and parsing
// ---------------------------------------------------------------------------

/// A path without a dot names the member of that key.
pub proof fn law_plain_path(m: JsonModel, key: Seq<char>)
    requires
        !key.contains('.'),
    ensures
        field_at(m, key) == member_value(m, key),
{
    lemma_split_plain(key);
    let parts = seq![key];
    assert(parts.drop_last() =~= Seq::<Seq<char>>::empty());
    assert(walk_path(m, parts.drop_last()) == Some(m));
    assert(parts.last() == key);
    assert(walk_path(m, parts) == member_value(m, key));
}

/// A dotted path reads its last key in the value at the path before the
/// last dot.
pub proof fn law_dotted_path(m: JsonModel, prefix: Seq<char>, key: Seq<char>)
    requires
        !key.contains('.'),
    ensures
        field_at(m, prefix + seq!['.'] + key) == match field_at(m, prefix) {
            Some(w) => member_value(w, key),
            None => None,
        },
{
    lemma_split_append(prefix, key);
    let parts = split_path(prefix).push(key);
    assert(parts.drop_last() =~= split_path(prefix));
}

proof fn lemma_split_plain(t: Seq<char>)
    requires
        !t.contains('.'),
    ensures
        split_path(t) == seq![t],
    decreases t.len(),
{
    if t.len() > 0 {
        let u = t.drop_last();
        assert(!u.contains('.')) by {
            if u.contains('.') {
                let i = choose|i: int| 0 <= i < u.len() && u[i] == '.';
                assert(t[i] == '.');
            }
        }
        lemma_split_plain(u);
        assert(t.last() != '.') by {
            assert(t[t.len() - 1] == t.last());
        }
        assert(u.push(t.last()) =~= t);
        assert(seq![u].update(0, u.push(t.last())) =~= seq![t]);
    } else {
        assert(t =~= Seq::<char>::empty());
    }
}

proof fn lemma_split_append(s: Seq<char>, t: Seq<char>)
    requires
        !t.contains('.'),
    ensures
        split_path(s + seq!['.'] + t) == split_path(s).push(t),
    decreases t.len(),
{
    let u = s + seq!['.'] + t;
    if t.len() == 0 {
        assert(u.drop_last() =~= s);
        assert(u.last() == '.');
        assert(t =~= Seq::<char>::empty());
    } else {
        let t2 = t.drop_last();
        assert(!t2.contains('.')) by {
            if t2.contains('.') {
                let i = choose|i: int| 0 <= i < t2.len() && t2[i] == '.';
                assert(t[i] == '.');
            }
        }
        lemma_split_append(s, t2);
        assert(u.drop_last() =~= s + seq!['.'] + t2);
        assert(u.last() == t.last());
        assert(t.last() != '.') by {
            assert(t[t.len() - 1] == t.last());
        }
        assert(t2.push(t.last()) =~= t);
        let parts = split_path(s).push(t2);
        assert(parts.update(parts.len() - 1, parts.last().push(t.last())) =~= split_path(s).push(t));
    }
}

/// What each field filter matches, by the value at its field: a range
/// matches a number exactly when its order key lies within each bound given
/// (a number above the upper bound or below the lower one never matches),
/// and nothing that is not a number; an equality matches a value equal to
/// it, or an array holding an element equal to it; a set matches a value
/// equal to one of its values.
pub proof fn law_field_filters(m: JsonModel, field: Seq<char>, n: crate::json::JsonNumber, lo: u64, hi: u64,
    value: JsonModel, values: Seq<JsonModel>, fv: JsonModel)
    ensures
        field_at(m, field) == Some(JsonModel::Number(n)) ==> (filter_matches(
            FilterModel::Range { field, min: Some(lo), max: Some(hi) }, m) <==> lo <= n.order_key && n.order_key <= hi),
        field_at(m, field) == Some(JsonModel::Number(n)) ==> (filter_matches(
            FilterModel::Range { field, min: None, max: Some(hi) }, m) <==> n.order_key <= hi),
        field_at(m, field) == Some(JsonModel::Number(n)) ==> (filter_matches(
            FilterModel::Range { field, min: Some(lo), max: None }, m) <==> lo <= n.order_key),
        field_at(m, field) == Some(JsonModel::Number(n)) ==> filter_matches(
            FilterModel::Range { field, min: None, max: None }, m),
        field_at(m, field) == Some(JsonModel::Number(n)) && n.order_key > hi ==> forall|mn: Option<u64>|
            !#[trigger] filter_matches(FilterModel::Range { field, min: mn, max: Some(hi) }, m),
        field_at(m, field) == Some(JsonModel::Number(n)) && n.order_key < lo ==> forall|mx: Option<u64>|
            !#[trigger] filter_matches(FilterModel::Range { field, min: Some(lo), max: mx }, m),
        field_at(m, field) == Some(fv) && !(fv is Number) ==> forall|mn: Option<u64>, mx: Option<u64>|
            !#[trigger] filter_matches(FilterModel::Range { field, min: mn, max: mx }, m),
        field_at(m, field) == Some(fv) && !(fv is Array) ==> (filter_matches(FilterModel::Equals { field, value }, m)
            <==> json_equiv(fv, value)),
        field_at(m, field) == Some(JsonModel::Array(values)) ==> (filter_matches(FilterModel::Equals { field, value }, m)
            <==> exists|i: int| 0 <= i < values.len() && #[trigger] json_equiv(values[i], value)),
        field_at(m, field) == Some(fv) ==> (filter_matches(FilterModel::In { field, values }, m)
            <==> exists|i: int| 0 <= i < values.len() && #[trigger] json_equiv(values[i], fv)),
{
}

/// Parsing the first `n` elements succeeds exactly when each of them
/// parses, and then gives their filters in order.
proof fn lemma_parse_items(items: Seq<JsonModel>, n: int)
    requires
        0 <= n <= items.len(),
    ensures
        parse_items(items, n) is Ok <==> forall|j: int| 0 <= j < n ==> (#[trigger] spec_from_json(items[j])) is Ok,
        parse_items(items, n) is Ok ==> parse_items(items, n)->Ok_0.len() == n
            && forall|j: int| 0 <= j < n ==> #[trigger] parse_items(items, n)->Ok_0[j] == spec_from_json(items[j])->Ok_0,
    decreases n,
{
    if n > 0 {
        lemma_parse_items(items, n - 1);
        if forall|j: int| 0 <= j < n ==> (#[trigger] spec_from_json(items[j])) is Ok {
            assert(spec_from_json(items[n - 1]) is Ok);
        }
    }
}

/// Parsing the first `n` members as fields succeeds exactly when each of
/// them parses, and then gives their field filters in order.
proof fn lemma_parse_fields(ms: Seq<(Seq<char>, JsonModel)>, n: int)
    requires
        0 <= n <= ms.len(),
    ensures
        parse_fields(ms, n) is Ok <==> forall|j: int| 0 <= j < n ==> (#[trigger] spec_parse_field(ms[j].0, ms[j].1)) is Ok,
        parse_fields(ms, n) is Ok ==> parse_fields(ms, n)->Ok_0.len() == n
            && forall|j: int| 0 <= j < n ==> #[trigger] parse_fields(ms, n)->Ok_0[j] == spec_parse_field(ms[j].0, ms[j].1)->Ok_0,
    decreases n,
{
    if n > 0 {
        lemma_parse_fields(ms, n - 1);
        if forall|j: int| 0 <= j < n ==> (#[trigger] spec_parse_field(ms[j].0, ms[j].1)) is Ok {
            assert(spec_parse_field(ms[n - 1].0, ms[n - 1].1) is Ok);
        }
    }
}

/// `{"$and": [f1, .., fn]}` parses, when every `fi` does, to a filter that
/// matches metadata exactly when every `fi`'s filter matches it; it is
/// refused when some `fi` is.
pub proof fn law_parse_and(ms: Seq<(Seq<char>, JsonModel)>, i: int, items: Seq<JsonModel>, m: JsonModel)
    requires
        find_key(ms, "$and"@) == Some(i),
        ms[i].1 == JsonModel::Array(items),
    ensures
        (forall|j: int| 0 <= j < items.len() ==> (#[trigger] spec_from_json(items[j])) is Ok) ==> {
            &&& spec_from_json(JsonModel::Object(ms)) is Ok
            &&& filter_matches(spec_from_json(JsonModel::Object(ms))->Ok_0, m)
                <==> forall|j: int| 0 <= j < items.len() ==> #[trigger] filter_matches(spec_from_json(items[j])->Ok_0, m)
        },
        (exists|j: int| 0 <= j < items.len() && (#[trigger] spec_from_json(items[j])) is Err)
            ==> spec_from_json(JsonModel::Object(ms)) is Err,
{
    lemma_parse_items(items, items.len() as int);
    let r = spec_from_json(JsonModel::Object(ms));
    if forall|j: int| 0 <= j < items.len() ==> (#[trigger] spec_from_json(items[j])) is Ok {
        let fs = parse_items(items, items.len() as int)->Ok_0;
        assert(r == Ok::<FilterModel, FilterErrorModel>(FilterModel::And(fs)));
        lemma_all_match(fs, m, fs.len() as int);
        if forall|j: int| 0 <= j < items.len() ==> #[trigger] filter_matches(spec_from_json(items[j])->Ok_0, m) {
            assert forall|j: int| 0 <= j < fs.len() implies #[trigger] filter_matches(fs[j], m) by {
                assert(fs[j] == spec_from_json(items[j])->Ok_0);
            }
        }
        if filter_matches(r->Ok_0, m) {
            assert forall|j: int| 0 <= j < items.len() implies #[trigger] filter_matches(spec_from_json(items[j])->Ok_0, m) by {
                assert(fs[j] == spec_from_json(items[j])->Ok_0);
                assert(filter_matches(fs[j], m));
            }
        }
    }
}

/// `{"$or": [f1, .., fn]}` (with no `$and`) parses, when every `fi` does,
/// to a filter that matches metadata exactly when some `fi`'s filter
/// matches it; it is refused when some `fi` is.
pub proof fn law_parse_or(ms: Seq<(Seq<char>, JsonModel)>, i: int, items: Seq<JsonModel>, m: JsonModel)
    requires
        find_key(ms, "$and"@) is None,
        find_key(ms, "$or"@) == Some(i),
        ms[i].1 == JsonModel::Array(items),
    ensures
        (forall|j: int| 0 <= j < items.len() ==> (#[trigger] spec_from_json(items[j])) is Ok) ==> {
            &&& spec_from_json(JsonModel::Object(ms)) is Ok
            &&& filter_matches(spec_from_json(JsonModel::Object(ms))->Ok_0, m)
                <==> exists|j: int| 0 <= j < items.len() && #[trigger] filter_matches(spec_from_json(items[j])->Ok_0, m)
        },
        (exists|j: int| 0 <= j < items.len() && (#[trigger] spec_from_json(items[j])) is Err)
            ==> spec_from_json(JsonModel::Object(ms)) is Err,
{
    lemma_parse_items(items, items.len() as int);
    let r = spec_from_json(JsonModel::Object(ms));
    if forall|j: int| 0 <= j < items.len() ==> (#[trigger] spec_from_json(items[j])) is Ok {
        let fs = parse_items(items, items.len() as int)->Ok_0;
        assert(r == Ok::<FilterModel, FilterErrorModel>(FilterModel::Or(fs)));
        lemma_any_match(fs, m, fs.len() as int);
        if exists|j: int| 0 <= j < items.len() && #[trigger] filter_matches(spec_from_json(items[j])->Ok_0, m) {
            let j = choose|j: int| 0 <= j < items.len() && #[trigger] filter_matches(spec_from_json(items[j])->Ok_0, m);
            assert(fs[j] == spec_from_json(items[j])->Ok_0);
            assert(filter_matches(fs[j], m));
        }
        if filter_matches(r->Ok_0, m) {
            let j = choose|j: int| 0 <= j < fs.len() && #[trigger] filter_matches(fs[j], m);
            assert(fs[j] == spec_from_json(items[j])->Ok_0);
        }
    }
}

/// An object of several plain fields parses, when each field does, to a
/// filter that matches metadata exactly when each field's filter matches it.
pub proof fn law_parse_several_fields(ms: Seq<(Seq<char>, JsonModel)>, m: JsonModel)
    requires
        ms.len() > 1,
        forall|j: int| 0 <= j < ms.len() ==> !is_operator_key(#[trigger] ms[j].0),
    ensures
        (forall|j: int| 0 <= j < ms.len() ==> (#[trigger] spec_parse_field(ms[j].0, ms[j].1)) is Ok) ==> {
            &&& spec_from_json(JsonModel::Object(ms)) is Ok
            &&& filter_matches(spec_from_json(JsonModel::Object(ms))->Ok_0, m)
                <==> forall|j: int| 0 <= j < ms.len() ==> #[trigger] filter_matches(spec_parse_field(ms[j].0, ms[j].1)->Ok_0, m)
        },
{
    lemma_find_key(ms, "$and"@);
    lemma_find_key(ms, "$or"@);
    lemma_first_unsupported(ms, combinator_operators());
    reveal_strlit("$and");
    reveal_strlit("$or");
    if find_key(ms, "$and"@) is Some {
        let i = find_key(ms, "$and"@)->0;
        assert(!is_operator_key(ms[i].0));
        assert(ms[i].0[0] == '$');
    }
    if find_key(ms, "$or"@) is Some {
        let i = find_key(ms, "$or"@)->0;
        assert(!is_operator_key(ms[i].0));
        assert(ms[i].0[0] == '$');
    }
    lemma_parse_fields(ms, ms.len() as int);
    let r = spec_from_json(JsonModel::Object(ms));
    if forall|j: int| 0 <= j < ms.len() ==> (#[trigger] spec_parse_field(ms[j].0, ms[j].1)) is Ok {
        let fs = parse_fields(ms, ms.len() as int)->Ok_0;
        assert(r == Ok::<FilterModel, FilterErrorModel>(FilterModel::And(fs)));
        lemma_all_match(fs, m, fs.len() as int);
        if forall|j: int| 0 <= j < ms.len() ==> #[trigger] filter_matches(spec_parse_field(ms[j].0, ms[j].1)->Ok_0, m) {
            assert forall|j: int| 0 <= j < fs.len() implies #[trigger] filter_matches(fs[j], m) by {
                assert(fs[j] == spec_parse_field(ms[j].0, ms[j].1)->Ok_0);
            }
        }
        if filter_matches(r->Ok_0, m) {
            assert forall|j: int| 0 <= j < ms.len() implies #[trigger] filter_matches(spec_parse_field(ms[j].0, ms[j].1)->Ok_0, m) by {
                assert(fs[j] == spec_parse_field(ms[j].0, ms[j].1)->Ok_0);
                assert(filter_matches(fs[j], m));
            }
        }
    }
}

/// A field's value parses to: an equality with it when it is not an
/// object; a set of the values of `$in` when that is an array; a range
/// bounded by the order keys of the numbers under `$gte` and `$lte` when
/// there is no `$in` and both are numbers.
pub proof fn law_parse_field(field: Seq<char>, value: JsonModel, ops: Seq<(Seq<char>, JsonModel)>, i: int,
    vals: Seq<JsonModel>, a: crate::json::JsonNumber, b: crate::json::JsonNumber)
    ensures
        !(value is Object) ==> spec_parse_field(field, value) == Ok::<FilterModel, FilterErrorModel>(
            FilterModel::Equals { field, value }),
        value == JsonModel::Object(ops) && find_key(ops, "$in"@) == Some(i) && ops[i].1 == JsonModel::Array(vals)
            ==> spec_parse_field(field, value) == Ok::<FilterModel, FilterErrorModel>(FilterModel::In { field, values: vals }),
        value == JsonModel::Object(ops) && find_key(ops, "$in"@) is None
            && member_value(value, "$gte"@) == Some(JsonModel::Number(a))
            && member_value(value, "$lte"@) == Some(JsonModel::Number(b))
            ==> spec_parse_field(field, value) == Ok::<FilterModel, FilterErrorModel>(
                FilterModel::Range { field, min: Some(a.order_key), max: Some(b.order_key) }),
        value == JsonModel::Object(ops) && find_key(ops, "$in"@) is None
            && member_value(value, "$gte"@) == Some(JsonModel::Number(a))
            && member_value(value, "$lte"@) is None
            ==> spec_parse_field(field, value) == Ok::<FilterModel, FilterErrorModel>(
                FilterModel::Range { field, min: Some(a.order_key), max: None }),
        value == JsonModel::Object(ops) && find_key(ops, "$in"@) is None
            && member_value(value, "$gte"@) is None
            && member_value(value, "$lte"@) == Some(JsonModel::Number(b))
            ==> spec_parse_field(field, value) == Ok::<FilterModel, FilterErrorModel>(
                FilterModel::Range { field, min: None, max: Some(b.order_key) }),
        value == JsonModel::Object(ops) && find_key(ops, "$in"@) == Some(i) && !(ops[i].1 is Array)
            ==> spec_parse_field(field, value) is Err,
{
}

} // verus!
