use vstd::prelude::*;

use vstd::string::StrSliceExecFns;

use crate::infra::{compare_ids, lemma_lex_trans, lex_lt, same_prefix};

verus! {

broadcast use vstd::seq_lib::group_to_multiset_ensures;

/// A column of a table or data model: its name and the text of its data type.
#[derive(Debug)]
pub struct Column {
    pub name: String,
    pub data_type: String,
}

/// Order of columns in a normalized schema: by name, then by data type.
pub open spec fn column_lt(a: Column, b: Column) -> bool {
    lex_lt(a.name@, b.name@) || (a.name@ == b.name@ && lex_lt(a.data_type@, b.data_type@))
}

pub open spec fn columns_sorted(s: Seq<Column>) -> bool {
    forall|i: int, j: int| 0 <= i < j < s.len() ==> !column_lt(#[trigger] s[j], #[trigger] s[i])
}

proof fn lemma_lex_irreflexive(a: Seq<char>)
    ensures
        !lex_lt(a, a),
{
    if lex_lt(a, a) {
        let i = choose|i: int|
            #[trigger] same_prefix(a, a, i) && ((i == a.len() && i < a.len()) || (i < a.len() && i
                < a.len() && (a[i] as u32) < (a[i] as u32)));
    }
}

proof fn lemma_column_transitive(a: Column, b: Column, c: Column)
    requires
        column_lt(a, b),
        column_lt(b, c),
    ensures
        column_lt(a, c),
{
    if lex_lt(a.name@, b.name@) && lex_lt(b.name@, c.name@) {
        lemma_lex_trans(a.name@, b.name@, c.name@);
    } else if a.name@ == b.name@ && b.name@ == c.name@ {
        lemma_lex_trans(a.data_type@, b.data_type@, c.data_type@);
    }
}

proof fn lemma_column_asymmetric(a: Column, b: Column)
    requires
        column_lt(a, b),
    ensures
        !column_lt(b, a),
{
    if column_lt(b, a) {
        lemma_column_transitive(a, b, a);
        lemma_lex_irreflexive(a.name@);
        lemma_lex_irreflexive(a.data_type@);
    }
}

fn column_less(a: &Column, b: &Column) -> (r: bool)
    ensures
        r == column_lt(*a, *b),
{
    proof {
        lemma_lex_irreflexive(a.name@);
        lemma_lex_irreflexive(a.data_type@);
    }
    let c = compare_ids(&a.name, &b.name);
    if c < 0 {
        true
    } else if c > 0 {
        proof {
            if lex_lt(a.name@, b.name@) {
                lemma_lex_trans(a.name@, b.name@, a.name@);
            }
        }
        false
    } else {
        let t = compare_ids(&a.data_type, &b.data_type);
        proof {
            if t > 0 && lex_lt(a.data_type@, b.data_type@) {
                lemma_lex_trans(a.data_type@, b.data_type@, a.data_type@);
            }
        }
        t < 0
    }
}

fn copy_column(c: &Column) -> (r: Column)
    ensures
        r == *c,
{
    Column { name: c.name.clone(), data_type: c.data_type.clone() }
}

/// The columns of a schema in normal form: the same columns, sorted by name and then by
/// data type, so that two schemas with the same columns have the same normal form.
pub fn normalize(columns: &Vec<Column>) -> (r: Vec<Column>)
    ensures
        r@.to_multiset() == columns@.to_multiset(),
        columns_sorted(r@),
{
    let mut out: Vec<Column> = Vec::new();
    let mut i: usize = 0;
    assert(columns@.subrange(0, 0) =~= Seq::<Column>::empty());
    while i < columns.len()
        invariant
            i <= columns@.len(),
            out@.to_multiset() == columns@.subrange(0, i as int).to_multiset(),
            columns_sorted(out@),
        decreases columns@.len() - i,
    {
        let x = copy_column(&columns[i]);
        let mut p: usize = 0;
        let mut stop = false;
        while !stop && p < out.len()
            invariant
                p <= out@.len(),
                columns_sorted(out@),
                forall|k: int| 0 <= k < p ==> !column_lt(x, #[trigger] out@[k]),
                stop ==> p < out@.len() && column_lt(x, out@[p as int]),
            decreases 2 * (out@.len() - p) + (if stop { 0int } else { 1int }),
        {
            if column_less(&x, &out[p]) {
                stop = true;
            } else {
                p = p + 1;
            }
        }
        let ghost before = out@;
        let ghost xv = x;
        out.insert(p, x);
        proof {
            let after = out@;
            assert(after == before.insert(p as int, xv));
            assert forall|k: int| p <= k < before.len() implies !column_lt(#[trigger] before[k], xv) by {
                lemma_column_asymmetric(xv, before[p as int]);
                if k > p && column_lt(before[k], xv) {
                    lemma_column_transitive(before[k], xv, before[p as int]);
                }
            }
            assert forall|a: int, b: int| 0 <= a < b < after.len() implies !column_lt(
                #[trigger] after[b],
                #[trigger] after[a],
            ) by {
                if a < p {
                    assert(after[a] == before[a]);
                    if b < p {
                        assert(after[b] == before[b]);
                    } else if b > p {
                        assert(after[b] == before[b - 1]);
                    }
                } else if a == p {
                    assert(after[b] == before[b - 1]);
                } else {
                    assert(after[a] == before[a - 1]);
                    assert(after[b] == before[b - 1]);
                }
            }
            assert(columns@.subrange(0, i + 1) =~= columns@.subrange(0, i as int).push(xv));
        }
        i = i + 1;
    }
    assert(columns@.subrange(0, columns@.len() as int) =~= columns@);
    out
}

/// Two columns are the same when their names and data types are.
pub open spec fn same_column(a: Column, b: Column) -> bool {
    a.name@ == b.name@ && a.data_type@ == b.data_type@
}

/// Compares two normalized schemas column by column.
pub fn same_columns(a: &Vec<Column>, b: &Vec<Column>) -> (r: bool)
    ensures
        r == (a@.len() == b@.len() && forall|i: int|
            0 <= i < a@.len() ==> same_column(#[trigger] a@[i], b@[i])),
{
    if a.len() != b.len() {
        return false;
    }
    let mut i: usize = 0;
    while i < a.len()
        invariant
            i <= a@.len(),
            a@.len() == b@.len(),
            forall|k: int| 0 <= k < i ==> same_column(#[trigger] a@[k], b@[k]),
        decreases a@.len() - i,
    {
        if a[i].name != b[i].name || a[i].data_type != b[i].data_type {
            assert(!same_column(a@[i as int], b@[i as int]));
            return false;
        }
        i = i + 1;
    }
    true
}

pub const FINGERPRINT_OFFSET: u64 = 0xcbf29ce484222325;

pub const FINGERPRINT_PRIME: u64 = 0x100000001b3;

/// Ends each name and data type in the fingerprinted sequence; no character has this value.
pub const FIELD_END: u64 = 0x1_0000_0000;

/// The units that a text contributes to a fingerprint: its characters' code points.
pub open spec fn text_units(s: Seq<char>) -> Seq<u64> {
    s.map_values(|c: char| c as u64)
}

pub open spec fn column_units(c: Column) -> Seq<u64> {
    text_units(c.name@).push(FIELD_END) + text_units(c.data_type@).push(FIELD_END)
}

/// The units of a schema: each column's name and data type in turn, each ended by a marker.
pub open spec fn schema_units(cols: Seq<Column>) -> Seq<u64>
    decreases cols.len(),
{
    if cols.len() == 0 {
        seq![]
    } else {
        schema_units(cols.drop_last()) + column_units(cols.last())
    }
}

/// One step of the fingerprint (FNV-1a over 64-bit units).
pub open spec fn mix(h: u64, x: u64) -> u64 {
    (h ^ x).wrapping_mul(FINGERPRINT_PRIME)
}

pub open spec fn mix_all(h: u64, xs: Seq<u64>) -> u64
    decreases xs.len(),
{
    if xs.len() == 0 {
        h
    } else {
        mix(mix_all(h, xs.drop_last()), xs.last())
    }
}

/// The fingerprint of a schema's columns, in the order given: stable across processes.
pub open spec fn fingerprint_of(cols: Seq<Column>) -> u64 {
    mix_all(FINGERPRINT_OFFSET, schema_units(cols))
}

fn mix_text(h: u64, s: &String) -> (r: u64)
    ensures
        r == mix_all(h, text_units(s@).push(FIELD_END)),
{
    let t = s.as_str();
    let n = t.unicode_len();
    let mut acc = h;
    let mut i: usize = 0;
    assert(text_units(s@).subrange(0, 0) =~= Seq::<u64>::empty());
    while i < n
        invariant
            n == s@.len(),
            t@ == s@,
            i <= n,
            acc == mix_all(h, text_units(s@).subrange(0, i as int)),
        decreases n - i,
    {
        let c = t.get_char(i);
        assert(text_units(s@).subrange(0, i + 1).drop_last() =~= text_units(s@).subrange(0, i as int));
        acc = (acc ^ (c as u64)).wrapping_mul(FINGERPRINT_PRIME);
        i = i + 1;
    }
    assert(text_units(s@).subrange(0, n as int) =~= text_units(s@));
    assert(text_units(s@).push(FIELD_END).drop_last() =~= text_units(s@));
    (acc ^ FIELD_END).wrapping_mul(FINGERPRINT_PRIME)
}

proof fn lemma_mix_all_concat(h: u64, a: Seq<u64>, b: Seq<u64>)
    ensures
        mix_all(h, a + b) == mix_all(mix_all(h, a), b),
    decreases b.len(),
{
    if b.len() == 0 {
        assert(a + b =~= a);
    } else {
        lemma_mix_all_concat(h, a, b.drop_last());
        assert((a + b).drop_last() =~= a + b.drop_last());
    }
}

/// The fingerprint of a schema. Normalize the columns first for a fingerprint that does
/// not depend on their order.
pub fn fingerprint(columns: &Vec<Column>) -> (r: u64)
    ensures
        r == fingerprint_of(columns@),
{
    let mut acc = FINGERPRINT_OFFSET;
    let mut i: usize = 0;
    assert(columns@.subrange(0, 0) =~= Seq::<Column>::empty());
    while i < columns.len()
        invariant
            i <= columns@.len(),
            acc == mix_all(FINGERPRINT_OFFSET, schema_units(columns@.subrange(0, i as int))),
        decreases columns@.len() - i,
    {
        let ghost pre = columns@.subrange(0, i as int);
        let c = &columns[i];
        let a1 = mix_text(acc, &c.name);
        let a2 = mix_text(a1, &c.data_type);
        proof {
            assert(columns@.subrange(0, i + 1).drop_last() =~= pre);
            let tn = text_units(c.name@).push(FIELD_END);
            let tt = text_units(c.data_type@).push(FIELD_END);
            lemma_mix_all_concat(acc, tn, tt);
            lemma_mix_all_concat(FINGERPRINT_OFFSET, schema_units(pre), tn + tt);
        }
        acc = a2;
        i = i + 1;
    }
    assert(columns@.subrange(0, columns@.len() as int) =~= columns@);
    acc
}

} // verus!
