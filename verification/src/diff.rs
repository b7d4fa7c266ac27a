//! Structural comparison of two settings trees.

use crate::json::{
    items_view, lemma_array_view, lemma_array_wf, lemma_object_view, members_view, JsonModel,
    JsonNumber, JsonValue, Member, NumberModel,
};
use crate::assoc::{
    find_key, has_key, lemma_find_key, lemma_find_key_has_key, lemma_find_key_more,
};
use crate::json::ascending_keys;
use crate::text::{lemma_lex_irreflexive, lex_lt, concat2, concat3, debug_quoted, decimal, str_debug, u64_to_string};
use vstd::prelude::*;
use vstd::string::*;

verus! {

/// Strings longer than this many characters are shortened when shown.
pub const MAX_VALUE_DISPLAY_LEN: usize = 30;

/// How many characters of a shortened string are kept.
pub const VALUE_PREVIEW_LEN: usize = 27;

/// The kind of a difference: a key that was added, one that was removed,
/// or a value that changed.
#[derive(Clone, Copy, Debug, PartialEq, Eq, Structural)]
pub enum DiffKind {
    Added,
    Removed,
    Changed,
}

/// One difference between two trees.
#[derive(Debug, PartialEq, Eq)]
pub struct DiffEntry {
    pub kind: DiffKind,
    /// Keys from the root down to the place of the difference, joined by dots.
    pub path: String,
    /// The line shown to the operator.
    pub text: String,
}

/// Mathematical model of a [`DiffEntry`].
pub struct DiffEntryModel {
    pub kind: DiffKind,
    pub path: Seq<char>,
    pub text: Seq<char>,
}

impl View for DiffEntry {
    type V = DiffEntryModel;

    open spec fn view(&self) -> DiffEntryModel {
        DiffEntryModel { kind: self.kind, path: self.path@, text: self.text@ }
    }
}

/// The models of a sequence of entries.
pub open spec fn entries_view(entries: Seq<DiffEntry>) -> Seq<DiffEntryModel> {
    Seq::new(entries.len(), |i: int| entries[i]@)
}

/// A double is zero when all bits but the sign are clear.
pub open spec fn is_zero_bits(bits: u64) -> bool {
    bits == 0 || bits == 0x8000_0000_0000_0000
}

/// Equality of numbers: integers by value, other numbers as doubles
/// compare (so the two zeros are equal); an integer never equals a double.
pub open spec fn number_eq(a: NumberModel, b: NumberModel) -> bool {
    match (a, b) {
        (NumberModel::PosInt(x), NumberModel::PosInt(y)) => x == y,
        (NumberModel::NegInt(x), NumberModel::NegInt(y)) => x == y,
        (NumberModel::Float { bits: x, .. }, NumberModel::Float { bits: y, .. }) => x == y || (
        is_zero_bits(x) && is_zero_bits(y)),
        _ => false,
    }
}

/// Equality of values: same shape, equal scalars, arrays equal item by
/// item, objects equal member by member.
pub open spec fn json_eq(a: JsonModel, b: JsonModel) -> bool
    decreases a,
{
    match (a, b) {
        (JsonModel::Null, JsonModel::Null) => true,
        (JsonModel::Bool(x), JsonModel::Bool(y)) => x == y,
        (JsonModel::Number(x), JsonModel::Number(y)) => number_eq(x, y),
        (JsonModel::Str(x), JsonModel::Str(y)) => x == y,
        (JsonModel::Array(x), JsonModel::Array(y)) => x.len() == y.len() && forall|i: int|
            0 <= i < x.len() ==> json_eq(#[trigger] x[i], y[i]),
        (JsonModel::Object(x), JsonModel::Object(y)) => x.len() == y.len() && forall|i: int|
            0 <= i < x.len() ==> (#[trigger] x[i]).0 == y[i].0 && json_eq(x[i].1, y[i].1),
        _ => false,
    }
}

/// The path of a key below a prefix: the key itself at the root, else the
/// prefix, a dot and the key.
pub open spec fn join_path(prefix: Seq<char>, key: Seq<char>) -> Seq<char> {
    if prefix.len() == 0 {
        key
    } else {
        prefix + "."@ + key
    }
}

/// How a value is shown in a `Changed` line.
pub open spec fn render_value(v: JsonModel) -> Seq<char> {
    match v {
        JsonModel::Null => "null"@,
        JsonModel::Bool(b) => if b {
            "true"@
        } else {
            "false"@
        },
        JsonModel::Number(NumberModel::PosInt(n)) => decimal(n as nat),
        JsonModel::Number(NumberModel::NegInt(n)) => if n < 0 {
            "-"@ + decimal((-n) as nat)
        } else {
            decimal(n as nat)
        },
        JsonModel::Number(NumberModel::Float { text, .. }) => text,
        JsonModel::Str(s) => if s.len() > MAX_VALUE_DISPLAY_LEN {
            "\""@ + s.take(VALUE_PREVIEW_LEN as int) + "...\""@
        } else {
            str_debug(s)
        },
        JsonModel::Array(items) => "["@ + decimal(items.len()) + " items]"@,
        JsonModel::Object(members) => "{"@ + decimal(members.len()) + " keys}"@,
    }
}

/// The entry for a key that only the first tree has.
pub open spec fn removed_entry(path: Seq<char>) -> DiffEntryModel {
    DiffEntryModel { kind: DiffKind::Removed, path, text: "- "@ + path + " (only in first)"@ }
}

/// The entry for a key that only the second tree has.
pub open spec fn added_entry(path: Seq<char>) -> DiffEntryModel {
    DiffEntryModel { kind: DiffKind::Added, path, text: "+ "@ + path + " (only in second)"@ }
}

/// The entry for two unequal values at the same place.
pub open spec fn changed_entry(l: JsonModel, r: JsonModel, path: Seq<char>) -> DiffEntryModel {
    DiffEntryModel {
        kind: DiffKind::Changed,
        path,
        text: "~ "@ + path + " : "@ + render_value(l) + " -> "@ + render_value(r),
    }
}

/// The entry for a key found on one side only.
pub open spec fn one_sided_entry(kind: DiffKind, path: Seq<char>) -> DiffEntryModel {
    if kind == DiffKind::Added {
        added_entry(path)
    } else {
        removed_entry(path)
    }
}

/// One entry of the given kind for each of the first `n` members of `here`
/// whose key `there` lacks, in the order of `here`.
pub open spec fn one_sided(
    here: Seq<(Seq<char>, JsonModel)>,
    there: Seq<(Seq<char>, JsonModel)>,
    prefix: Seq<char>,
    kind: DiffKind,
    n: nat,
) -> Seq<DiffEntryModel>
    decreases n,
{
    if n == 0 || n > here.len() {
        Seq::empty()
    } else {
        let before = one_sided(here, there, prefix, kind, (n - 1) as nat);
        if has_key(there, here[n - 1].0) {
            before
        } else {
            before.push(one_sided_entry(kind, join_path(prefix, here[n - 1].0)))
        }
    }
}

/// The differences between two values, in the order in which they are
/// reported. For two objects: the keys only the first has, then the keys
/// only the second has, then the differences below each key both have; each
/// group in the order of the object's members. For anything else: one
/// `Changed` entry if the values are unequal.
pub open spec fn diff_spec(l: JsonModel, r: JsonModel, prefix: Seq<char>) -> Seq<DiffEntryModel>
    decreases l, 1nat, 0nat,
{
    match (l, r) {
        (JsonModel::Object(lm), JsonModel::Object(rm)) => one_sided(
            lm,
            rm,
            prefix,
            DiffKind::Removed,
            lm.len(),
        ) + one_sided(rm, lm, prefix, DiffKind::Added, rm.len()) + common_spec(
            l,
            rm,
            prefix,
            lm.len(),
        ),
        _ => if json_eq(l, r) {
            Seq::empty()
        } else {
            seq![changed_entry(l, r, prefix)]
        },
    }
}

/// The differences below the first `n` members of the object `l` whose key
/// `rm` has too.
pub open spec fn common_spec(
    l: JsonModel,
    rm: Seq<(Seq<char>, JsonModel)>,
    prefix: Seq<char>,
    n: nat,
) -> Seq<DiffEntryModel>
    decreases l, 0nat, n,
{
    match l {
        JsonModel::Object(lm) => if n == 0 || n > lm.len() {
            Seq::empty()
        } else {
            let before = common_spec(l, rm, prefix, (n - 1) as nat);
            match find_key(rm, lm[n - 1].0, rm.len()) {
                Some(j) => before + diff_spec(lm[n - 1].1, rm[j].1, join_path(prefix, lm[n - 1].0)),
                None => before,
            }
        },
        _ => Seq::empty(),
    }
}

fn number_equal(a: &JsonNumber, b: &JsonNumber) -> (r: bool)
    ensures
        r == number_eq(a@, b@),
{
    match a {
        JsonNumber::PosInt(x) => match b {
            JsonNumber::PosInt(y) => *x == *y,
            _ => false,
        },
        JsonNumber::NegInt(x) => match b {
            JsonNumber::NegInt(y) => *x == *y,
            _ => false,
        },
        JsonNumber::Float { bits: x, .. } => match b {
            JsonNumber::Float { bits: y, .. } => {
                let x_zero = *x == 0 || *x == 0x8000_0000_0000_0000;
                let y_zero = *y == 0 || *y == 0x8000_0000_0000_0000;
                *x == *y || (x_zero && y_zero)
            },
            _ => false,
        },
    }
}

/// Whether two values are equal.
#[verifier::spinoff_prover]
#[verifier::rlimit(40)]
pub fn json_equal(a: &JsonValue, b: &JsonValue) -> (r: bool)
    requires
        a@.wf(),
        b@.wf(),
    ensures
        r == json_eq(a@, b@),
    decreases a,
{
    match a {
        JsonValue::Null => match b {
            JsonValue::Null => true,
            _ => false,
        },
        JsonValue::Bool(x) => match b {
            JsonValue::Bool(y) => *x == *y,
            _ => false,
        },
        JsonValue::Number(x) => match b {
            JsonValue::Number(y) => number_equal(x, y),
            _ => false,
        },
        JsonValue::Str(x) => match b {
            JsonValue::Str(y) => *x == *y,
            _ => false,
        },
        JsonValue::Array(x) => match b {
            JsonValue::Array(y) => {
                proof {
                    lemma_array_view(a);
                    lemma_array_view(b);
                }
                if x.len() != y.len() {
                    return false;
                }
                let mut i: usize = 0;
                while i < x.len()
                    invariant
                        i <= x.len(),
                        x.len() == y.len(),
                        a == JsonValue::Array(*x),
                        a@.wf(),
                        b@.wf(),
                        a@ == JsonModel::Array(items_view(x@)),
                        b@ == JsonModel::Array(items_view(y@)),
                        forall|k: int|
                            0 <= k < i ==> json_eq(
                                #[trigger] items_view(x@)[k],
                                items_view(y@)[k],
                            ),
                    decreases x.len() - i,
                {
                    proof {
                        lemma_array_wf(items_view(x@));
                        lemma_array_wf(items_view(y@));
                    }
                    assert(items_view(x@)[i as int].wf() && items_view(y@)[i as int].wf());
                    if !json_equal(&x[i], &y[i]) {
                        assert(!json_eq(items_view(x@)[i as int], items_view(y@)[i as int]));
                        return false;
                    }
                    i += 1;
                }
                true
            },
            _ => false,
        },
        JsonValue::Object(x) => match b {
            JsonValue::Object(y) => {
                proof {
                    lemma_object_view(a);
                    lemma_object_view(b);
                }
                if x.len() != y.len() {
                    return false;
                }
                let mut i: usize = 0;
                while i < x.len()
                    invariant
                        i <= x.len(),
                        x.len() == y.len(),
                        a == JsonValue::Object(*x),
                        a@.wf(),
                        b@.wf(),
                        a@ == JsonModel::Object(members_view(x@)),
                        b@ == JsonModel::Object(members_view(y@)),
                        forall|k: int|
                            0 <= k < i ==> (#[trigger] members_view(x@)[k]).0 == members_view(
                                y@,
                            )[k].0 && json_eq(members_view(x@)[k].1, members_view(y@)[k].1),
                    decreases x.len() - i,
                {
                    if x[i].key != y[i].key {
                        assert(members_view(x@)[i as int].0 != members_view(y@)[i as int].0);
                        return false;
                    }
                    assert(members_view(x@)[i as int].1.wf() && members_view(y@)[i as int].1.wf());
                    if !json_equal(&x[i].value, &y[i].value) {
                        assert(!json_eq(members_view(x@)[i as int].1, members_view(y@)[i as int].1));
                        return false;
                    }
                    i += 1;
                }
                true
            },
            _ => false,
        },
    }
}

/// How a value is shown in a `Changed` line: a long string cut short, an
/// array or object by its size, anything else in full.
pub fn format_value(v: &JsonValue) -> (r: String)
    ensures
        r@ == render_value(v@),
{
    match v {
        JsonValue::Null => String::from_str("null"),
        JsonValue::Bool(b) => if *b {
            String::from_str("true")
        } else {
            String::from_str("false")
        },
        JsonValue::Number(n) => match n {
            JsonNumber::PosInt(x) => u64_to_string(*x),
            JsonNumber::NegInt(x) => {
                if *x >= 0 {
                    u64_to_string(*x as u64)
                } else if *x == i64::MIN {
                    let digits = u64_to_string(0x8000_0000_0000_0000);
                    concat2("-", digits.as_str())
                } else {
                    let digits = u64_to_string((-*x) as u64);
                    concat2("-", digits.as_str())
                }
            },
            JsonNumber::Float { text, .. } => text.clone(),
        },
        JsonValue::Str(s) => {
            if s.as_str().unicode_len() > MAX_VALUE_DISPLAY_LEN {
                let head = s.as_str().substring_char(0, VALUE_PREVIEW_LEN);
                concat3("\"", head, "...\"")
            } else {
                debug_quoted(s.as_str())
            }
        },
        JsonValue::Array(items) => {
            proof {
                lemma_array_view(v);
            }
            let count = u64_to_string(items.len() as u64);
            concat3("[", count.as_str(), " items]")
        },
        JsonValue::Object(members) => {
            proof {
                lemma_object_view(v);
            }
            let count = u64_to_string(members.len() as u64);
            concat3("{", count.as_str(), " keys}")
        },
    }
}

/// In an object with ascending keys, each member is the one found under
/// its own key.
pub proof fn lemma_ascending_find(members: Seq<(Seq<char>, JsonModel)>, i: int)
    requires
        ascending_keys(members),
        0 <= i < members.len(),
    ensures
        find_key(members, members[i].0, members.len()) == Some(i),
{
    lemma_find_key(members, members[i].0, members.len());
    let j = find_key(members, members[i].0, members.len())->0;
    if j < i {
        lemma_lex_irreflexive(members[i].0);
    }
}

/// Whether the sequence holds an entry of the given kind at the given path.
pub open spec fn has_entry(entries: Seq<DiffEntryModel>, kind: DiffKind, path: Seq<char>) -> bool {
    exists|i: int|
        0 <= i < entries.len() && (#[trigger] entries[i]).kind == kind && entries[i].path == path
}

proof fn lemma_has_entry_concat(
    s: Seq<DiffEntryModel>,
    t: Seq<DiffEntryModel>,
    kind: DiffKind,
    path: Seq<char>,
)
    ensures
        has_entry(s + t, kind, path) <==> has_entry(s, kind, path) || has_entry(t, kind, path),
{
    let st = s + t;
    if has_entry(st, kind, path) {
        let i = choose|i: int|
            0 <= i < st.len() && (#[trigger] st[i]).kind == kind && st[i].path == path;
        if i < s.len() {
            assert(s[i] == st[i]);
        } else {
            assert(t[i - s.len()] == st[i]);
        }
    }
    if has_entry(s, kind, path) {
        let i = choose|i: int|
            0 <= i < s.len() && (#[trigger] s[i]).kind == kind && s[i].path == path;
        assert(st[i] == s[i]);
    }
    if has_entry(t, kind, path) {
        let i = choose|i: int|
            0 <= i < t.len() && (#[trigger] t[i]).kind == kind && t[i].path == path;
        assert(st[i + s.len()] == t[i]);
    }
}

/// Whether one of the first `n` members of `here` has a key that `there`
/// lacks and that lies at `path` below `prefix`.
pub open spec fn lone_key_at(
    here: Seq<(Seq<char>, JsonModel)>,
    there: Seq<(Seq<char>, JsonModel)>,
    prefix: Seq<char>,
    path: Seq<char>,
    n: nat,
) -> bool {
    exists|i: int|
        0 <= i < n && i < here.len() && !has_key(there, (#[trigger] here[i]).0) && join_path(
            prefix,
            here[i].0,
        ) == path
}

#[verifier::spinoff_prover]
#[verifier::rlimit(40)]
proof fn lemma_one_sided_entries(
    here: Seq<(Seq<char>, JsonModel)>,
    there: Seq<(Seq<char>, JsonModel)>,
    prefix: Seq<char>,
    kind: DiffKind,
    n: nat,
    wanted: DiffKind,
    path: Seq<char>,
)
    requires
        n <= here.len(),
        kind != DiffKind::Changed,
    ensures
        has_entry(one_sided(here, there, prefix, kind, n), wanted, path) <==> wanted == kind
            && lone_key_at(here, there, prefix, path, n),
    decreases n,
{
    if n > 0 {
        let m = (n - 1) as nat;
        lemma_one_sided_entries(here, there, prefix, kind, m, wanted, path);
        let before = one_sided(here, there, prefix, kind, m);
        let key = here[n - 1].0;
        if has_key(there, key) {
            if lone_key_at(here, there, prefix, path, n) {
                let i = choose|i: int|
                    0 <= i < n && i < here.len() && !has_key(there, (#[trigger] here[i]).0)
                        && join_path(prefix, here[i].0) == path;
                assert(i < m);
            }
        } else {
            let e = one_sided_entry(kind, join_path(prefix, key));
            assert(before.push(e) =~= before + seq![e]);
            lemma_has_entry_concat(before, seq![e], wanted, path);
            if has_entry(seq![e], wanted, path) {
                assert(here[n - 1].0 == key);
            }
            if wanted == kind && join_path(prefix, key) == path {
                assert(seq![e][0].kind == wanted);
                assert(here[n - 1].0 == key);
            }
            if lone_key_at(here, there, prefix, path, n) && !lone_key_at(
                here,
                there,
                prefix,
                path,
                m,
            ) {
                let i = choose|i: int|
                    0 <= i < n && i < here.len() && !has_key(there, (#[trigger] here[i]).0)
                        && join_path(prefix, here[i].0) == path;
                assert(i == n - 1);
            }
        }
    }
}

/// Whether below one of the first `n` members of the object `l`, whose key
/// `rm` has too, the two values differ by an entry of the given kind at the
/// given path.
pub open spec fn shared_key_at(
    l: JsonModel,
    rm: Seq<(Seq<char>, JsonModel)>,
    prefix: Seq<char>,
    kind: DiffKind,
    path: Seq<char>,
    n: nat,
) -> bool {
    l matches JsonModel::Object(lm) && exists|i: int|
        0 <= i < n && i < lm.len() && find_key(rm, (#[trigger] lm[i]).0, rm.len()) is Some
            && has_entry(
            diff_spec(
                lm[i].1,
                rm[find_key(rm, lm[i].0, rm.len())->0].1,
                join_path(prefix, lm[i].0),
            ),
            kind,
            path,
        )
}

#[verifier::spinoff_prover]
#[verifier::rlimit(40)]
proof fn lemma_common_entries(
    l: JsonModel,
    rm: Seq<(Seq<char>, JsonModel)>,
    prefix: Seq<char>,
    n: nat,
    kind: DiffKind,
    path: Seq<char>,
)
    requires
        l is Object,
        n <= l->Object_0.len(),
    ensures
        has_entry(common_spec(l, rm, prefix, n), kind, path) <==> shared_key_at(
            l,
            rm,
            prefix,
            kind,
            path,
            n,
        ),
    decreases n,
{
    let lm = l->Object_0;
    if n > 0 {
        let m = (n - 1) as nat;
        lemma_common_entries(l, rm, prefix, m, kind, path);
        let before = common_spec(l, rm, prefix, m);
        let key = lm[n - 1].0;
        let found = find_key(rm, key, rm.len());
        if shared_key_at(l, rm, prefix, kind, path, n) && !shared_key_at(
            l,
            rm,
            prefix,
            kind,
            path,
            m,
        ) {
            let i = choose|i: int|
                0 <= i < n && i < lm.len() && find_key(rm, (#[trigger] lm[i]).0, rm.len()) is Some
                    && has_entry(
                    diff_spec(
                        lm[i].1,
                        rm[find_key(rm, lm[i].0, rm.len())->0].1,
                        join_path(prefix, lm[i].0),
                    ),
                    kind,
                    path,
                );
            assert(i == n - 1);
        }
        match found {
            Some(j) => {
                let below = diff_spec(lm[n - 1].1, rm[j].1, join_path(prefix, key));
                lemma_has_entry_concat(before, below, kind, path);
                if has_entry(below, kind, path) {
                    assert(lm[n - 1].0 == key);
                }
            },
            None => {},
        }
    }
}

/// The other kind of a one-sided entry.
pub open spec fn flip(kind: DiffKind) -> DiffKind {
    match kind {
        DiffKind::Added => DiffKind::Removed,
        DiffKind::Removed => DiffKind::Added,
        DiffKind::Changed => DiffKind::Changed,
    }
}

#[verifier::spinoff_prover]
#[verifier::rlimit(40)]
proof fn lemma_swap_direction(
    a: JsonModel,
    b: JsonModel,
    prefix: Seq<char>,
    kind: DiffKind,
    path: Seq<char>,
)
    requires
        a.wf(),
        b.wf(),
        has_entry(diff_spec(a, b, prefix), kind, path),
    ensures
        has_entry(diff_spec(b, a, prefix), flip(kind), path),
    decreases a,
{
    match (a, b) {
        (JsonModel::Object(lm), JsonModel::Object(rm)) => {
            let removed = one_sided(lm, rm, prefix, DiffKind::Removed, lm.len());
            let added = one_sided(rm, lm, prefix, DiffKind::Added, rm.len());
            let common = common_spec(a, rm, prefix, lm.len());
            let removed2 = one_sided(rm, lm, prefix, DiffKind::Removed, rm.len());
            let added2 = one_sided(lm, rm, prefix, DiffKind::Added, lm.len());
            let common2 = common_spec(b, lm, prefix, rm.len());
            lemma_has_entry_concat(removed + added, common, kind, path);
            lemma_has_entry_concat(removed, added, kind, path);
            lemma_has_entry_concat(removed2 + added2, common2, flip(kind), path);
            lemma_has_entry_concat(removed2, added2, flip(kind), path);
            lemma_one_sided_entries(lm, rm, prefix, DiffKind::Removed, lm.len(), kind, path);
            lemma_one_sided_entries(rm, lm, prefix, DiffKind::Added, rm.len(), kind, path);
            lemma_one_sided_entries(
                rm,
                lm,
                prefix,
                DiffKind::Removed,
                rm.len(),
                flip(kind),
                path,
            );
            lemma_one_sided_entries(lm, rm, prefix, DiffKind::Added, lm.len(), flip(kind), path);
            lemma_common_entries(a, rm, prefix, lm.len(), kind, path);
            lemma_common_entries(b, lm, prefix, rm.len(), flip(kind), path);
            if has_entry(common, kind, path) {
                let i = choose|i: int|
                    0 <= i < lm.len() && i < lm.len() && find_key(
                        rm,
                        (#[trigger] lm[i]).0,
                        rm.len(),
                    ) is Some && has_entry(
                        diff_spec(
                            lm[i].1,
                            rm[find_key(rm, lm[i].0, rm.len())->0].1,
                            join_path(prefix, lm[i].0),
                        ),
                        kind,
                        path,
                    );
                let j = find_key(rm, lm[i].0, rm.len())->0;
                lemma_find_key(rm, lm[i].0, rm.len());
                lemma_ascending_find(lm, i);
                lemma_ascending_find(rm, j);
                assert(rm[j].0 == lm[i].0);
                lemma_swap_direction(lm[i].1, rm[j].1, join_path(prefix, lm[i].0), kind, path);
                assert(find_key(lm, rm[j].0, lm.len()) == Some(i));
                assert(shared_key_at(b, lm, prefix, flip(kind), path, rm.len()));
            }
        },
        _ => {
            let here = diff_spec(a, b, prefix);
            let i = choose|i: int|
                0 <= i < here.len() && (#[trigger] here[i]).kind == kind && here[i].path == path;
            if json_eq(b, a) {
                lemma_json_eq_symmetric(b, a);
            }
            let there = diff_spec(b, a, prefix);
            assert(there[0] == changed_entry(b, a, prefix));
        },
    }
}

/// Equality of values does not depend on the side.
pub proof fn lemma_json_eq_symmetric(a: JsonModel, b: JsonModel)
    requires
        json_eq(a, b),
    ensures
        json_eq(b, a),
    decreases a,
{
    match (a, b) {
        (JsonModel::Array(x), JsonModel::Array(y)) => {
            assert forall|i: int| 0 <= i < y.len() implies json_eq(#[trigger] y[i], x[i]) by {
                assert(json_eq(x[i], y[i]));
                lemma_json_eq_symmetric(x[i], y[i]);
            }
        },
        (JsonModel::Object(x), JsonModel::Object(y)) => {
            assert forall|i: int| 0 <= i < y.len() implies (#[trigger] y[i]).0 == x[i].0 && json_eq(
                y[i].1,
                x[i].1,
            ) by {
                assert(x[i].0 == y[i].0 && json_eq(x[i].1, y[i].1));
                lemma_json_eq_symmetric(x[i].1, y[i].1);
            }
        },
        _ => {},
    }
}

/// A key that the comparison of `a` with `b` reports as removed at some
/// path is reported as added at that path when `b` is compared with `a`,
/// and the other way round; and a value reported as changed at some path
/// is reported as changed at that path from either side.
pub proof fn lemma_diff_add_remove_symmetry(
    a: JsonModel,
    b: JsonModel,
    prefix: Seq<char>,
    path: Seq<char>,
)
    requires
        a.wf(),
        b.wf(),
    ensures
        has_entry(diff_spec(a, b, prefix), DiffKind::Removed, path) <==> has_entry(
            diff_spec(b, a, prefix),
            DiffKind::Added,
            path,
        ),
        has_entry(diff_spec(a, b, prefix), DiffKind::Added, path) <==> has_entry(
            diff_spec(b, a, prefix),
            DiffKind::Removed,
            path,
        ),
        has_entry(diff_spec(a, b, prefix), DiffKind::Changed, path) <==> has_entry(
            diff_spec(b, a, prefix),
            DiffKind::Changed,
            path,
        ),
{
    if has_entry(diff_spec(a, b, prefix), DiffKind::Changed, path) {
        lemma_swap_direction(a, b, prefix, DiffKind::Changed, path);
    }
    if has_entry(diff_spec(b, a, prefix), DiffKind::Changed, path) {
        lemma_swap_direction(b, a, prefix, DiffKind::Changed, path);
    }
    if has_entry(diff_spec(a, b, prefix), DiffKind::Removed, path) {
        lemma_swap_direction(a, b, prefix, DiffKind::Removed, path);
    }
    if has_entry(diff_spec(b, a, prefix), DiffKind::Added, path) {
        lemma_swap_direction(b, a, prefix, DiffKind::Added, path);
    }
    if has_entry(diff_spec(a, b, prefix), DiffKind::Added, path) {
        lemma_swap_direction(a, b, prefix, DiffKind::Added, path);
    }
    if has_entry(diff_spec(b, a, prefix), DiffKind::Removed, path) {
        lemma_swap_direction(b, a, prefix, DiffKind::Removed, path);
    }
}

/// Every value equals itself.
pub proof fn lemma_json_eq_reflexive(a: JsonModel)
    ensures
        json_eq(a, a),
    decreases a,
{
    match a {
        JsonModel::Array(items) => {
            assert forall|i: int| 0 <= i < items.len() implies json_eq(
                #[trigger] items[i],
                items[i],
            ) by {
                lemma_json_eq_reflexive(items[i]);
            }
        },
        JsonModel::Object(members) => {
            assert forall|i: int| 0 <= i < members.len() implies (#[trigger] members[i]).0
                == members[i].0 && json_eq(members[i].1, members[i].1) by {
                lemma_json_eq_reflexive(members[i].1);
            }
        },
        _ => {},
    }
}

proof fn lemma_one_sided_self(members: Seq<(Seq<char>, JsonModel)>, prefix: Seq<char>, kind: DiffKind, n: nat)
    requires
        n <= members.len(),
    ensures
        one_sided(members, members, prefix, kind, n) =~= Seq::empty(),
    decreases n,
{
    if n > 0 {
        lemma_one_sided_self(members, prefix, kind, (n - 1) as nat);
        assert(has_key(members, members[n - 1].0));
    }
}

proof fn lemma_common_self(a: JsonModel, prefix: Seq<char>, n: nat)
    requires
        a.wf(),
        a is Object,
        n <= a->Object_0.len(),
    ensures
        common_spec(a, a->Object_0, prefix, n) =~= Seq::empty(),
    decreases a, 0nat, n,
{
    if n > 0 {
        let members = a->Object_0;
        lemma_common_self(a, prefix, (n - 1) as nat);
        lemma_ascending_find(members, n - 1);
        lemma_diff_reflexive(members[n - 1].1, join_path(prefix, members[n - 1].0));
    }
}

/// Comparing a value with itself reports nothing.
pub proof fn lemma_diff_reflexive(a: JsonModel, prefix: Seq<char>)
    requires
        a.wf(),
    ensures
        diff_spec(a, a, prefix) =~= Seq::empty(),
    decreases a, 1nat, 0nat,
{
    lemma_json_eq_reflexive(a);
    match a {
        JsonModel::Object(members) => {
            lemma_one_sided_self(members, prefix, DiffKind::Removed, members.len());
            lemma_one_sided_self(members, prefix, DiffKind::Added, members.len());
            lemma_common_self(a, prefix, members.len());
        },
        _ => {},
    }
}

/// The keys of the first `n` members of `here` that `there` lacks, in
/// the order of `here`.
pub open spec fn lone_keys(
    here: Seq<(Seq<char>, JsonModel)>,
    there: Seq<(Seq<char>, JsonModel)>,
    n: nat,
) -> Seq<Seq<char>>
    decreases n,
{
    if n == 0 || n > here.len() {
        Seq::empty()
    } else {
        let before = lone_keys(here, there, (n - 1) as nat);
        if has_key(there, here[n - 1].0) {
            before
        } else {
            before.push(here[n - 1].0)
        }
    }
}

/// The one-sided differences are reported key by key, in ascending order
/// of the keys: there is one entry for each key that only one object has,
/// and in an object with ascending keys these keys come in ascending order.
#[verifier::spinoff_prover]
#[verifier::rlimit(40)]
pub proof fn lemma_one_sided_sorted(
    here: Seq<(Seq<char>, JsonModel)>,
    there: Seq<(Seq<char>, JsonModel)>,
    prefix: Seq<char>,
    kind: DiffKind,
    n: nat,
)
    requires
        n <= here.len(),
        ascending_keys(here),
    ensures
        one_sided(here, there, prefix, kind, n) == Seq::new(
            lone_keys(here, there, n).len(),
            |i: int| one_sided_entry(kind, join_path(prefix, lone_keys(here, there, n)[i])),
        ),
        forall|i: int, j: int|
            0 <= i < j < lone_keys(here, there, n).len() ==> lex_lt(
                #[trigger] lone_keys(here, there, n)[i],
                #[trigger] lone_keys(here, there, n)[j],
            ),
        forall|i: int|
            0 <= i < lone_keys(here, there, n).len() ==> exists|a: int|
                0 <= a < n && (#[trigger] here[a]).0 == #[trigger] lone_keys(here, there, n)[i],
    decreases n,
{
    let keys = lone_keys(here, there, n);
    if n > 0 {
        let m = (n - 1) as nat;
        lemma_one_sided_sorted(here, there, prefix, kind, m);
        let before = lone_keys(here, there, m);
        assert forall|i: int| 0 <= i < keys.len() implies exists|a: int|
            0 <= a < n && (#[trigger] here[a]).0 == #[trigger] keys[i] by {
            if i < before.len() {
                let a = choose|a: int| 0 <= a < m && (#[trigger] here[a]).0 == before[i];
                assert(here[a].0 == keys[i]);
            } else {
                assert(here[n - 1].0 == keys[i]);
            }
        }
        assert forall|i: int, j: int| 0 <= i < j < keys.len() implies lex_lt(
            #[trigger] keys[i],
            #[trigger] keys[j],
        ) by {
            if j == before.len() {
                let a = choose|a: int| 0 <= a < m && (#[trigger] here[a]).0 == before[i];
                assert(lex_lt(here[a].0, here[n - 1].0));
            }
        }
        assert(one_sided(here, there, prefix, kind, n) =~= Seq::new(
            keys.len(),
            |i: int| one_sided_entry(kind, join_path(prefix, keys[i])),
        ));
    } else {
        assert(one_sided(here, there, prefix, kind, n) =~= Seq::new(
            keys.len(),
            |i: int| one_sided_entry(kind, join_path(prefix, keys[i])),
        ));
    }
}

proof fn lemma_one_sided_empty(
    here: Seq<(Seq<char>, JsonModel)>,
    there: Seq<(Seq<char>, JsonModel)>,
    prefix: Seq<char>,
    kind: DiffKind,
    n: nat,
)
    requires
        n <= here.len(),
    ensures
        one_sided(here, there, prefix, kind, n).len() == 0 <==> forall|i: int|
            0 <= i < n ==> has_key(there, (#[trigger] here[i]).0),
    decreases n,
{
    if n > 0 {
        lemma_one_sided_empty(here, there, prefix, kind, (n - 1) as nat);
        if !has_key(there, here[n - 1].0) {
            assert(!has_key(there, here[n - 1].0));
        }
    }
}

proof fn lemma_common_empty(
    l: JsonModel,
    rm: Seq<(Seq<char>, JsonModel)>,
    prefix: Seq<char>,
    n: nat,
)
    requires
        l is Object,
        n <= l->Object_0.len(),
    ensures
        common_spec(l, rm, prefix, n).len() == 0 <==> forall|i: int|
            0 <= i < n && find_key(rm, (#[trigger] l->Object_0[i]).0, rm.len()) is Some
                ==> diff_spec(
                l->Object_0[i].1,
                rm[find_key(rm, l->Object_0[i].0, rm.len())->0].1,
                join_path(prefix, l->Object_0[i].0),
            ).len() == 0,
    decreases n,
{
    if n > 0 {
        lemma_common_empty(l, rm, prefix, (n - 1) as nat);
        let lm = l->Object_0;
        if find_key(rm, lm[n - 1].0, rm.len()) is Some {
            let j = find_key(rm, lm[n - 1].0, rm.len())->0;
            let below = diff_spec(lm[n - 1].1, rm[j].1, join_path(prefix, lm[n - 1].0));
            if below.len() > 0 {
                assert(find_key(rm, lm[n - 1].0, rm.len()) is Some);
            }
        }
    }
}

/// Two objects with ascending keys that have the same keys have them at
/// the same places.
#[verifier::spinoff_prover]
#[verifier::rlimit(40)]
proof fn lemma_same_keys(lm: Seq<(Seq<char>, JsonModel)>, rm: Seq<(Seq<char>, JsonModel)>, n: nat)
    requires
        ascending_keys(lm),
        ascending_keys(rm),
        forall|i: int| 0 <= i < lm.len() ==> has_key(rm, (#[trigger] lm[i]).0),
        forall|i: int| 0 <= i < rm.len() ==> has_key(lm, (#[trigger] rm[i]).0),
        n <= lm.len(),
    ensures
        n <= rm.len(),
        forall|i: int| 0 <= i < n ==> (#[trigger] lm[i]).0 == rm[i].0,
    decreases n,
{
    if n > 0 {
        let m = (n - 1) as nat;
        lemma_same_keys(lm, rm, m);
        let key = lm[m as int].0;
        assert(has_key(rm, lm[m as int].0));
        let p = choose|p: int| 0 <= p < rm.len() && (#[trigger] rm[p]).0 == key;
        if p < m {
            assert(lm[p].0 == rm[p].0);
            assert(lex_lt(lm[p].0, lm[m as int].0));
            lemma_lex_irreflexive(key);
        }
        if p > m {
            let other = rm[m as int].0;
            assert(lex_lt(rm[m as int].0, rm[p].0));
            assert(has_key(lm, rm[m as int].0));
            let q = choose|q: int| 0 <= q < lm.len() && (#[trigger] lm[q]).0 == other;
            if q < m {
                assert(lm[q].0 == rm[q].0);
                assert(lex_lt(rm[q].0, rm[m as int].0));
                lemma_lex_irreflexive(other);
            } else if q == m {
                lemma_lex_irreflexive(key);
            } else {
                assert(lex_lt(lm[m as int].0, lm[q].0));
                crate::text::lemma_lex_transitive(other, key, other);
                lemma_lex_irreflexive(other);
            }
        }
    }
}

/// The comparison reports nothing exactly when the two values are equal.
#[verifier::spinoff_prover]
#[verifier::rlimit(40)]
pub proof fn lemma_diff_empty_iff_equal(a: JsonModel, b: JsonModel, prefix: Seq<char>)
    requires
        a.wf(),
        b.wf(),
    ensures
        diff_spec(a, b, prefix).len() == 0 <==> json_eq(a, b),
    decreases a,
{
    match (a, b) {
        (JsonModel::Object(lm), JsonModel::Object(rm)) => {
            let removed = one_sided(lm, rm, prefix, DiffKind::Removed, lm.len());
            let added = one_sided(rm, lm, prefix, DiffKind::Added, rm.len());
            let common = common_spec(a, rm, prefix, lm.len());
            lemma_one_sided_empty(lm, rm, prefix, DiffKind::Removed, lm.len());
            lemma_one_sided_empty(rm, lm, prefix, DiffKind::Added, rm.len());
            lemma_common_empty(a, rm, prefix, lm.len());
            if json_eq(a, b) {
                assert forall|i: int| 0 <= i < lm.len() implies has_key(
                    rm,
                    (#[trigger] lm[i]).0,
                ) by {
                    assert(rm[i].0 == lm[i].0);
                }
                assert forall|i: int| 0 <= i < rm.len() implies has_key(
                    lm,
                    (#[trigger] rm[i]).0,
                ) by {
                    assert(lm[i].0 == rm[i].0);
                }
                assert forall|i: int|
                    0 <= i < lm.len() && find_key(rm, (#[trigger] lm[i]).0, rm.len())
                        is Some implies diff_spec(
                    lm[i].1,
                    rm[find_key(rm, lm[i].0, rm.len())->0].1,
                    join_path(prefix, lm[i].0),
                ).len() == 0 by {
                    assert(rm[i].0 == lm[i].0);
                    lemma_ascending_find(rm, i);
                    lemma_diff_empty_iff_equal(lm[i].1, rm[i].1, join_path(prefix, lm[i].0));
                }
            }
            if diff_spec(a, b, prefix).len() == 0 {
                assert(removed.len() == 0 && added.len() == 0 && common.len() == 0);
                lemma_same_keys(lm, rm, lm.len());
                lemma_same_keys(rm, lm, rm.len());
                assert forall|i: int| 0 <= i < lm.len() implies (#[trigger] lm[i]).0 == rm[i].0
                    && json_eq(lm[i].1, rm[i].1) by {
                    lemma_ascending_find(rm, i);
                    assert(find_key(rm, lm[i].0, rm.len()) == Some(i));
                    lemma_diff_empty_iff_equal(lm[i].1, rm[i].1, join_path(prefix, lm[i].0));
                }
            }
        },
        _ => {},
    }
}

/// Whether the first `i` members of `lm` and the first `j` members of
/// `rm` hold the same shared keys.
pub open spec fn in_step(
    lm: Seq<(Seq<char>, JsonModel)>,
    rm: Seq<(Seq<char>, JsonModel)>,
    i: int,
    j: int,
) -> bool {
    &&& forall|k: int|
        0 <= k < i && has_key(rm, (#[trigger] lm[k]).0) ==> exists|l: int|
            0 <= l < j && (#[trigger] rm[l]).0 == lm[k].0
    &&& forall|l: int|
        0 <= l < j && has_key(lm, (#[trigger] rm[l]).0) ==> exists|k: int|
            0 <= k < i && (#[trigger] lm[k]).0 == rm[l].0
}

#[verifier::spinoff_prover]
#[verifier::rlimit(40)]
proof fn lemma_common_len(a: JsonModel, b: JsonModel, prefix: Seq<char>, i: nat, j: nat)
    requires
        a.wf(),
        b.wf(),
        a is Object,
        b is Object,
        i <= a->Object_0.len(),
        j <= b->Object_0.len(),
        in_step(a->Object_0, b->Object_0, i as int, j as int),
    ensures
        common_spec(a, b->Object_0, prefix, i).len() == common_spec(
            b,
            a->Object_0,
            prefix,
            j,
        ).len(),
    decreases a, 0nat, i + j,
{
    let lm = a->Object_0;
    let rm = b->Object_0;
    if i == 0 && j == 0 {
    } else if i == 0 {
        let kj = rm[j - 1].0;
        lemma_find_key_has_key(lm, kj);
        if has_key(lm, kj) {
            let k = choose|k: int| 0 <= k < 0 && (#[trigger] lm[k]).0 == rm[j - 1].0;
        }
        lemma_common_len(a, b, prefix, i, (j - 1) as nat);
    } else if j == 0 {
        let ki = lm[i - 1].0;
        lemma_find_key_has_key(rm, ki);
        if has_key(rm, ki) {
            let l = choose|l: int| 0 <= l < 0 && (#[trigger] rm[l]).0 == lm[i - 1].0;
        }
        lemma_common_len(a, b, prefix, (i - 1) as nat, j);
    } else {
        let ki = lm[i - 1].0;
        let kj = rm[j - 1].0;
        lemma_find_key_has_key(rm, ki);
        lemma_find_key_has_key(lm, kj);
        if ki == kj {
            lemma_ascending_find(rm, j - 1);
            lemma_ascending_find(lm, i - 1);
            lemma_diff_len_symmetric(lm[i - 1].1, rm[j - 1].1, join_path(prefix, ki));
            assert(in_step(lm, rm, i - 1, j - 1)) by {
                assert forall|k: int|
                    0 <= k < i - 1 && has_key(rm, (#[trigger] lm[k]).0) implies exists|l: int|
                    0 <= l < j - 1 && (#[trigger] rm[l]).0 == lm[k].0 by {
                    let l = choose|l: int| 0 <= l < j && (#[trigger] rm[l]).0 == lm[k].0;
                    if l == j - 1 {
                        assert(lex_lt(lm[k].0, lm[i - 1].0));
                        lemma_lex_irreflexive(ki);
                    }
                    assert(rm[l].0 == lm[k].0);
                }
                assert forall|l: int|
                    0 <= l < j - 1 && has_key(lm, (#[trigger] rm[l]).0) implies exists|k: int|
                    0 <= k < i - 1 && (#[trigger] lm[k]).0 == rm[l].0 by {
                    let k = choose|k: int| 0 <= k < i && (#[trigger] lm[k]).0 == rm[l].0;
                    if k == i - 1 {
                        assert(lex_lt(rm[l].0, rm[j - 1].0));
                        lemma_lex_irreflexive(kj);
                    }
                    assert(lm[k].0 == rm[l].0);
                }
            }
            lemma_common_len(a, b, prefix, (i - 1) as nat, (j - 1) as nat);
        } else {
            crate::text::lemma_lex_total(ki, kj);
            if lex_lt(kj, ki) {
                assert(!has_key(rm, ki)) by {
                    if has_key(rm, ki) {
                        let l = choose|l: int| 0 <= l < j && (#[trigger] rm[l]).0 == lm[i - 1].0;
                        if l < j - 1 {
                            assert(lex_lt(rm[l].0, rm[j - 1].0));
                            crate::text::lemma_lex_transitive(ki, kj, ki);
                        }
                        lemma_lex_irreflexive(ki);
                    }
                }
                assert(in_step(lm, rm, i - 1, j as int)) by {
                    assert forall|l: int|
                        0 <= l < j && has_key(lm, (#[trigger] rm[l]).0) implies exists|k: int|
                        0 <= k < i - 1 && (#[trigger] lm[k]).0 == rm[l].0 by {
                        let k = choose|k: int| 0 <= k < i && (#[trigger] lm[k]).0 == rm[l].0;
                        if k == i - 1 {
                            assert(rm[l].0 == ki);
                            assert(has_key(rm, ki));
                        }
                        assert(lm[k].0 == rm[l].0);
                    }
                }
                lemma_common_len(a, b, prefix, (i - 1) as nat, j);
            } else {
                assert(!has_key(lm, kj)) by {
                    if has_key(lm, kj) {
                        let k = choose|k: int| 0 <= k < i && (#[trigger] lm[k]).0 == rm[j - 1].0;
                        if k < i - 1 {
                            assert(lex_lt(lm[k].0, lm[i - 1].0));
                            crate::text::lemma_lex_transitive(kj, ki, kj);
                        }
                        lemma_lex_irreflexive(kj);
                    }
                }
                assert(in_step(lm, rm, i as int, j - 1)) by {
                    assert forall|k: int|
                        0 <= k < i && has_key(rm, (#[trigger] lm[k]).0) implies exists|l: int|
                        0 <= l < j - 1 && (#[trigger] rm[l]).0 == lm[k].0 by {
                        let l = choose|l: int| 0 <= l < j && (#[trigger] rm[l]).0 == lm[k].0;
                        if l == j - 1 {
                            assert(lm[k].0 == kj);
                            assert(has_key(lm, kj));
                        }
                        assert(rm[l].0 == lm[k].0);
                    }
                }
                lemma_common_len(a, b, prefix, i, (j - 1) as nat);
            }
        }
    }
}

/// Comparing from the other side reports as many differences.
#[verifier::spinoff_prover]
#[verifier::rlimit(40)]
pub proof fn lemma_diff_len_symmetric(a: JsonModel, b: JsonModel, prefix: Seq<char>)
    requires
        a.wf(),
        b.wf(),
    ensures
        diff_spec(a, b, prefix).len() == diff_spec(b, a, prefix).len(),
    decreases a, 1nat, 0nat,
{
    match (a, b) {
        (JsonModel::Object(lm), JsonModel::Object(rm)) => {
            lemma_one_sided_sorted(lm, rm, prefix, DiffKind::Removed, lm.len());
            lemma_one_sided_sorted(lm, rm, prefix, DiffKind::Added, lm.len());
            lemma_one_sided_sorted(rm, lm, prefix, DiffKind::Removed, rm.len());
            lemma_one_sided_sorted(rm, lm, prefix, DiffKind::Added, rm.len());
            assert(in_step(lm, rm, lm.len() as int, rm.len() as int)) by {
                assert forall|k: int|
                    0 <= k < lm.len() && has_key(rm, (#[trigger] lm[k]).0) implies exists|l: int|
                    0 <= l < rm.len() && (#[trigger] rm[l]).0 == lm[k].0 by {
                    let l = choose|l: int| 0 <= l < rm.len() && (#[trigger] rm[l]).0 == lm[k].0;
                    assert(rm[l].0 == lm[k].0);
                }
                assert forall|l: int|
                    0 <= l < rm.len() && has_key(lm, (#[trigger] rm[l]).0) implies exists|k: int|
                    0 <= k < lm.len() && (#[trigger] lm[k]).0 == rm[l].0 by {
                    let k = choose|k: int| 0 <= k < lm.len() && (#[trigger] lm[k]).0 == rm[l].0;
                    assert(lm[k].0 == rm[l].0);
                }
            }
            lemma_common_len(a, b, prefix, lm.len(), rm.len());
        },
        _ => {
            if json_eq(a, b) {
                lemma_json_eq_symmetric(a, b);
            }
            if json_eq(b, a) {
                lemma_json_eq_symmetric(b, a);
            }
        },
    }
}

fn find_member(members: &Vec<Member>, key: &String) -> (r: Option<usize>)
    ensures
        match r {
            Some(j) => j < members@.len() && find_key(
                members_view(members@),
                key@,
                members@.len(),
            ) == Some(j as int),
            None => find_key(members_view(members@), key@, members@.len()) is None,
        },
{
    let mut i: usize = 0;
    while i < members.len()
        invariant
            i <= members.len(),
            find_key(members_view(members@), key@, i as nat) is None,
        decreases members.len() - i,
    {
        if members[i].key == *key {
            proof {
                lemma_find_key_more(members_view(members@), key@, (i + 1) as nat, members@.len());
            }
            return Some(i);
        }
        i += 1;
    }
    None
}

fn join(prefix: &str, key: &str) -> (r: String)
    ensures
        r@ == join_path(prefix@, key@),
{
    if prefix.is_empty() {
        String::from_str(key)
    } else {
        concat3(prefix, ".", key)
    }
}

fn one_sided_line(kind: DiffKind, path: String) -> (e: DiffEntry)
    requires
        kind != DiffKind::Changed,
    ensures
        e@ == one_sided_entry(kind, path@),
{
    let text = match kind {
        DiffKind::Added => concat3("+ ", path.as_str(), " (only in second)"),
        _ => concat3("- ", path.as_str(), " (only in first)"),
    };
    DiffEntry { kind, path, text }
}

fn push_one_sided(
    out: &mut Vec<DiffEntry>,
    here: &Vec<Member>,
    there: &Vec<Member>,
    prefix: &str,
    kind: DiffKind,
)
    requires
        kind != DiffKind::Changed,
    ensures
        entries_view(final(out)@) == entries_view(old(out)@) + one_sided(
            members_view(here@),
            members_view(there@),
            prefix@,
            kind,
            here@.len(),
        ),
{
    let ghost before = entries_view(out@);
    let ghost hm = members_view(here@);
    let ghost tm = members_view(there@);
    let mut i: usize = 0;
    assert(entries_view(out@) =~= before + one_sided(hm, tm, prefix@, kind, 0));
    while i < here.len()
        invariant
            i <= here.len(),
            kind != DiffKind::Changed,
            hm == members_view(here@),
            tm == members_view(there@),
            entries_view(out@) == before + one_sided(hm, tm, prefix@, kind, i as nat),
        decreases here.len() - i,
    {
        let found = find_member(there, &here[i].key);
        proof {
            lemma_find_key_has_key(tm, hm[i as int].0);
        }
        if found.is_none() {
            let path = join(prefix, here[i].key.as_str());
            let ghost prev = out@;
            let entry = one_sided_line(kind, path);
            out.push(entry);
            assert(entries_view(out@) =~= entries_view(prev).push(entry@));
            assert(before + one_sided(hm, tm, prefix@, kind, (i + 1) as nat) =~= (before
                + one_sided(hm, tm, prefix@, kind, i as nat)).push(entry@));
        }
        i += 1;
    }
}

/// Compares two values and lists their differences. Two objects are
/// compared key by key, and the values below a key both have are compared in
/// turn; any other two values give one `Changed` entry when they are unequal.
#[verifier::spinoff_prover]
#[verifier::rlimit(40)]
pub fn diff_json_objects(v1: &JsonValue, v2: &JsonValue, prefix: &str) -> (out: Vec<DiffEntry>)
    requires
        v1@.wf(),
        v2@.wf(),
    ensures
        entries_view(out@) == diff_spec(v1@, v2@, prefix@),
    decreases v1,
{
    let mut out: Vec<DiffEntry> = Vec::new();
    match v1 {
        JsonValue::Object(m1) => match v2 {
            JsonValue::Object(m2) => {
                proof {
                    lemma_object_view(v1);
                    lemma_object_view(v2);
                }
                let ghost lm = members_view(m1@);
                let ghost rm = members_view(m2@);
                assert(entries_view(out@) =~= Seq::empty());
                push_one_sided(&mut out, m1, m2, prefix, DiffKind::Removed);
                push_one_sided(&mut out, m2, m1, prefix, DiffKind::Added);
                let ghost sides = one_sided(lm, rm, prefix@, DiffKind::Removed, lm.len())
                    + one_sided(rm, lm, prefix@, DiffKind::Added, rm.len());
                assert(entries_view(out@) =~= sides + common_spec(v1@, rm, prefix@, 0));
                let mut i: usize = 0;
                while i < m1.len()
                    invariant
                        i <= m1.len(),
                        v1 == JsonValue::Object(*m1),
                        lm == members_view(m1@),
                        rm == members_view(m2@),
                        v1@.wf(),
                        v2@.wf(),
                        v2@ == JsonModel::Object(rm),
                        v1@ == JsonModel::Object(lm),
                        entries_view(out@) == sides + common_spec(v1@, rm, prefix@, i as nat),
                    decreases m1.len() - i,
                {
                    match find_member(m2, &m1[i].key) {
                        Some(j) => {
                            let path = join(prefix, m1[i].key.as_str());
                            assert(lm[i as int].1.wf() && rm[j as int].1.wf());
                            let mut below = diff_json_objects(
                                &m1[i].value,
                                &m2[j].value,
                                path.as_str(),
                            );
                            let ghost prev = out@;
                            let ghost added = below@;
                            out.append(&mut below);
                            assert(entries_view(out@) =~= entries_view(prev) + entries_view(added));
                            assert(sides + common_spec(v1@, rm, prefix@, (i + 1) as nat) =~= (sides
                                + common_spec(v1@, rm, prefix@, i as nat)) + entries_view(added));
                        },
                        None => {},
                    }
                    i += 1;
                }
                return out;
            },
            _ => {},
        },
        _ => {},
    }
    if !json_equal(v1, v2) {
        let s1 = format_value(v1);
        let s2 = format_value(v2);
        let mut text = concat3("~ ", prefix, " : ");
        text.append(s1.as_str());
        text.append(" -> ");
        text.append(s2.as_str());
        let entry = DiffEntry { kind: DiffKind::Changed, path: String::from_str(prefix), text };
        out.push(entry);
        assert(entries_view(out@) =~= seq![changed_entry(v1@, v2@, prefix@)]);
    } else {
        assert(entries_view(out@) =~= Seq::empty());
    }
    out
}

} // verus!
