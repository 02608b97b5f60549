//! The persistence codec: an opaque binary encoding of the whole aggregate.
//! Counts and ids are 8-byte little-endian fields, characters 4-byte fields;
//! strings and lists are length-prefixed. Loading the bytes that saving
//! produced restores the index field for field; any other shape of input is
//! a fatal decode error.

use vstd::prelude::*;
use vstd::string::StrSliceExecFns;
use vstd::string::StringExecFns;
use crate::decls::Class;
use crate::decls::ClassRecord;
use crate::decls::Function;
use crate::decls::FunRecord;
use crate::index::CodeIndex;
use crate::index::EdgeList;
use crate::index::IndexModel;
use crate::interner::IDGenerator;
use crate::text::push_char;

verus! {

broadcast use vstd::utf8::char_is_scalar, vstd::utf8::char_u32_cast;

/// The `n`-th power of 256.
pub open spec fn pow256(n: nat) -> int
    decreases n,
{
    if n == 0 {
        1
    } else {
        256 * pow256((n - 1) as nat)
    }
}

/// `x` written as `n` little-endian base-256 digits.
pub open spec fn le_bytes(x: int, n: nat) -> Seq<u8>
    decreases n,
{
    if n == 0 {
        Seq::empty()
    } else {
        seq![(x % 256) as u8] + le_bytes(x / 256, (n - 1) as nat)
    }
}

/// The value of little-endian base-256 digits.
pub open spec fn le_value(s: Seq<u8>) -> int
    decreases s.len(),
{
    if s.len() == 0 {
        0
    } else {
        s[0] + 256 * le_value(s.drop_first())
    }
}

/// An encoded number takes exactly `n` bytes.
pub proof fn lemma_le_bytes_len(x: int, n: nat)
    ensures
        le_bytes(x, n).len() == n,
    decreases n,
{
    if n > 0 {
        lemma_le_bytes_len(x / 256, (n - 1) as nat);
    }
}

/// Reading back an encoded number yields the number.
pub proof fn lemma_le_roundtrip(x: int, n: nat)
    requires
        0 <= x < pow256(n),
    ensures
        le_value(le_bytes(x, n)) == x,
    decreases n,
{
    if n > 0 {
        let q = x / 256;
        let p = pow256((n - 1) as nat);
        assert(q < p) by (nonlinear_arith)
            requires
                0 <= x,
                x < 256 * p,
                q == x / 256,
        {}
        assert(q >= 0);
        lemma_le_roundtrip(q, (n - 1) as nat);
        let s = le_bytes(x, n);
        assert(s.drop_first() =~= le_bytes(q, (n - 1) as nat));
        assert(s[0] == (x % 256) as u8);
        assert(le_value(s) == x % 256 + 256 * q);
    }
}

/// A digit string's value stays below the base power of its length.
pub proof fn lemma_le_value_bound(s: Seq<u8>)
    ensures
        0 <= le_value(s) < pow256(s.len()),
    decreases s.len(),
{
    if s.len() > 0 {
        let rest = s.drop_first();
        lemma_le_value_bound(rest);
        let p = pow256(rest.len());
        assert(s[0] + 256 * le_value(rest) < 256 * p) by (nonlinear_arith)
            requires
                s[0] < 256,
                0 <= le_value(rest),
                le_value(rest) < p,
                1 <= p,
        {}
    }
}

/// 256 to the eighth: one more than the largest encodable count.
pub proof fn lemma_pow256_8()
    ensures
        pow256(8) == 0x1_0000_0000_0000_0000,
{
    reveal_with_fuel(pow256, 9);
}

/// 256 to the fourth: one more than the largest encodable character field.
pub proof fn lemma_pow256_4()
    ensures
        pow256(4) == 0x1_0000_0000,
{
    reveal_with_fuel(pow256, 5);
}

/// An 8-byte count field.
pub open spec fn enc_u64(x: u64) -> Seq<u8> {
    le_bytes(x as int, 8)
}

/// A 4-byte character field, holding the character's scalar value.
pub open spec fn enc_char(c: char) -> Seq<u8> {
    le_bytes(c as int, 4)
}

/// The characters of a string, one field each.
pub open spec fn enc_chars(s: Seq<char>) -> Seq<u8>
    decreases s.len(),
{
    if s.len() == 0 {
        Seq::empty()
    } else {
        enc_char(s[0]) + enc_chars(s.drop_first())
    }
}

/// A length-prefixed string.
pub open spec fn enc_str(s: Seq<char>) -> Seq<u8> {
    enc_u64(s.len() as u64) + enc_chars(s)
}

/// A list of strings, each length-prefixed.
pub open spec fn enc_strs(ss: Seq<Seq<char>>) -> Seq<u8>
    decreases ss.len(),
{
    if ss.len() == 0 {
        Seq::empty()
    } else {
        enc_str(ss[0]) + enc_strs(ss.drop_first())
    }
}

/// One adjacency row: the caller id, then its length-prefixed callee ids.
pub open spec fn enc_edge(e: (u64, Seq<u64>)) -> Seq<u8> {
    enc_u64(e.0) + enc_u64(e.1.len() as u64) + enc_ids(e.1)
}

/// Callee ids, one field each.
pub open spec fn enc_ids(ids: Seq<u64>) -> Seq<u8>
    decreases ids.len(),
{
    if ids.len() == 0 {
        Seq::empty()
    } else {
        enc_u64(ids[0]) + enc_ids(ids.drop_first())
    }
}

/// The adjacency rows in stored order.
pub open spec fn enc_edges(es: Seq<(u64, Seq<u64>)>) -> Seq<u8>
    decreases es.len(),
{
    if es.len() == 0 {
        Seq::empty()
    } else {
        enc_edge(es[0]) + enc_edges(es.drop_first())
    }
}

/// One function record: name, owning class, body.
pub open spec fn enc_fun(f: FunRecord) -> Seq<u8> {
    enc_str(f.name) + enc_str(f.pkg) + enc_str(f.body)
}

/// The function records in stored order.
pub open spec fn enc_funs(fs: Seq<FunRecord>) -> Seq<u8>
    decreases fs.len(),
{
    if fs.len() == 0 {
        Seq::empty()
    } else {
        enc_fun(fs[0]) + enc_funs(fs.drop_first())
    }
}

/// One class record: name and header text.
pub open spec fn enc_class(c: ClassRecord) -> Seq<u8> {
    enc_str(c.name) + enc_str(c.declaration)
}

/// The class records in stored order.
pub open spec fn enc_classes(cs: Seq<ClassRecord>) -> Seq<u8>
    decreases cs.len(),
{
    if cs.len() == 0 {
        Seq::empty()
    } else {
        enc_class(cs[0]) + enc_classes(cs.drop_first())
    }
}

/// The whole aggregate: each store behind its length prefix, in a fixed
/// order — symbol names, adjacency rows, function records, class records,
/// skipped path fragments.
pub open spec fn enc_index(m: IndexModel) -> Seq<u8> {
    enc_u64(m.names.len() as u64) + (enc_strs(m.names) + (enc_u64(m.edges.len() as u64) + (
    enc_edges(m.edges) + (enc_u64(m.functions.len() as u64) + (enc_funs(m.functions) + (enc_u64(
        m.classes.len() as u64,
    ) + (enc_classes(m.classes) + (enc_u64(m.skip_dirs.len() as u64) + enc_strs(m.skip_dirs)))))))))
}

/// Every count in the model fits an 8-byte length field. Any model a real
/// index takes is bounded, lengths being machine sizes.
pub open spec fn model_bounded(m: IndexModel) -> bool {
    &&& m.names.len() < pow256(8)
    &&& (forall|i: int| 0 <= i < m.names.len() ==> (#[trigger] m.names[i]).len() < pow256(8))
    &&& m.edges.len() < pow256(8)
    &&& (forall|i: int| 0 <= i < m.edges.len() ==> (#[trigger] m.edges[i]).1.len() < pow256(8))
    &&& m.functions.len() < pow256(8)
    &&& (forall|i: int|
        0 <= i < m.functions.len() ==> (#[trigger] m.functions[i]).name.len() < pow256(8)
            && m.functions[i].pkg.len() < pow256(8) && m.functions[i].body.len() < pow256(8))
    &&& m.classes.len() < pow256(8)
    &&& (forall|i: int|
        0 <= i < m.classes.len() ==> (#[trigger] m.classes[i]).name.len() < pow256(8)
            && m.classes[i].declaration.len() < pow256(8))
    &&& m.skip_dirs.len() < pow256(8)
    &&& (forall|i: int|
        0 <= i < m.skip_dirs.len() ==> (#[trigger] m.skip_dirs[i]).len() < pow256(8))
}

/// Whether a count field's value is a Unicode scalar, decodable as a `char`.
pub open spec fn is_scalar_value(v: int) -> bool {
    (0 <= v < 0xD800) || (0xE000 <= v <= 0x10FFFF)
}

/// Consumes an 8-byte count field.
pub open spec fn dec_u64(s: Seq<u8>) -> Option<(u64, Seq<u8>)> {
    if s.len() < 8 {
        None
    } else {
        Some((le_value(s.take(8)) as u64, s.skip(8)))
    }
}

/// Consumes a 4-byte character field; a value outside the Unicode scalars is
/// a decode error.
pub open spec fn dec_char(s: Seq<u8>) -> Option<(char, Seq<u8>)> {
    if s.len() < 4 {
        None
    } else {
        let v = le_value(s.take(4));
        if is_scalar_value(v) {
            Some((v as char, s.skip(4)))
        } else {
            None
        }
    }
}

/// Consumes `n` character fields.
pub open spec fn dec_chars(s: Seq<u8>, n: nat) -> Option<(Seq<char>, Seq<u8>)>
    decreases n,
{
    if n == 0 {
        Some((Seq::empty(), s))
    } else {
        match dec_char(s) {
            Some((c, s1)) => match dec_chars(s1, (n - 1) as nat) {
                Some((cs, s2)) => Some((seq![c] + cs, s2)),
                None => None,
            },
            None => None,
        }
    }
}

/// Consumes one length-prefixed string.
pub open spec fn dec_str(s: Seq<u8>) -> Option<(Seq<char>, Seq<u8>)> {
    match dec_u64(s) {
        Some((n, s1)) => dec_chars(s1, n as nat),
        None => None,
    }
}

/// Consumes `n` length-prefixed strings.
pub open spec fn dec_strs(s: Seq<u8>, n: nat) -> Option<(Seq<Seq<char>>, Seq<u8>)>
    decreases n,
{
    if n == 0 {
        Some((Seq::empty(), s))
    } else {
        match dec_str(s) {
            Some((x, s1)) => match dec_strs(s1, (n - 1) as nat) {
                Some((xs, s2)) => Some((seq![x] + xs, s2)),
                None => None,
            },
            None => None,
        }
    }
}

/// Consumes `n` id fields.
pub open spec fn dec_ids(s: Seq<u8>, n: nat) -> Option<(Seq<u64>, Seq<u8>)>
    decreases n,
{
    if n == 0 {
        Some((Seq::empty(), s))
    } else {
        match dec_u64(s) {
            Some((x, s1)) => match dec_ids(s1, (n - 1) as nat) {
                Some((xs, s2)) => Some((seq![x] + xs, s2)),
                None => None,
            },
            None => None,
        }
    }
}

/// Consumes one adjacency row.
pub open spec fn dec_edge(s: Seq<u8>) -> Option<((u64, Seq<u64>), Seq<u8>)> {
    match dec_u64(s) {
        Some((caller, s1)) => match dec_u64(s1) {
            Some((n, s2)) => match dec_ids(s2, n as nat) {
                Some((ids, s3)) => Some(((caller, ids), s3)),
                None => None,
            },
            None => None,
        },
        None => None,
    }
}

/// Consumes `n` adjacency rows.
pub open spec fn dec_edges(s: Seq<u8>, n: nat) -> Option<(Seq<(u64, Seq<u64>)>, Seq<u8>)>
    decreases n,
{
    if n == 0 {
        Some((Seq::empty(), s))
    } else {
        match dec_edge(s) {
            Some((x, s1)) => match dec_edges(s1, (n - 1) as nat) {
                Some((xs, s2)) => Some((seq![x] + xs, s2)),
                None => None,
            },
            None => None,
        }
    }
}

/// Consumes one function record.
pub open spec fn dec_fun(s: Seq<u8>) -> Option<(FunRecord, Seq<u8>)> {
    match dec_str(s) {
        Some((name, s1)) => match dec_str(s1) {
            Some((pkg, s2)) => match dec_str(s2) {
                Some((body, s3)) => Some((FunRecord { name, pkg, body }, s3)),
                None => None,
            },
            None => None,
        },
        None => None,
    }
}

/// Consumes `n` function records.
pub open spec fn dec_funs(s: Seq<u8>, n: nat) -> Option<(Seq<FunRecord>, Seq<u8>)>
    decreases n,
{
    if n == 0 {
        Some((Seq::empty(), s))
    } else {
        match dec_fun(s) {
            Some((x, s1)) => match dec_funs(s1, (n - 1) as nat) {
                Some((xs, s2)) => Some((seq![x] + xs, s2)),
                None => None,
            },
            None => None,
        }
    }
}

/// Consumes one class record.
pub open spec fn dec_class(s: Seq<u8>) -> Option<(ClassRecord, Seq<u8>)> {
    match dec_str(s) {
        Some((name, s1)) => match dec_str(s1) {
            Some((declaration, s2)) => Some((ClassRecord { name, declaration }, s2)),
            None => None,
        },
        None => None,
    }
}

/// Consumes `n` class records.
pub open spec fn dec_classes(s: Seq<u8>, n: nat) -> Option<(Seq<ClassRecord>, Seq<u8>)>
    decreases n,
{
    if n == 0 {
        Some((Seq::empty(), s))
    } else {
        match dec_class(s) {
            Some((x, s1)) => match dec_classes(s1, (n - 1) as nat) {
                Some((xs, s2)) => Some((seq![x] + xs, s2)),
                None => None,
            },
            None => None,
        }
    }
}

/// Decodes a whole aggregate. The bytes must parse exactly, with nothing left
/// over; any structural mismatch is a decode error.
pub open spec fn dec_index(s: Seq<u8>) -> Option<IndexModel> {
    match dec_u64(s) {
        Some((n_names, s1)) => match dec_strs(s1, n_names as nat) {
            Some((names, s2)) => match dec_u64(s2) {
                Some((n_edges, s3)) => match dec_edges(s3, n_edges as nat) {
                    Some((edges, s4)) => match dec_u64(s4) {
                        Some((n_funs, s5)) => match dec_funs(s5, n_funs as nat) {
                            Some((functions, s6)) => match dec_u64(s6) {
                                Some((n_classes, s7)) => match dec_classes(s7, n_classes as nat) {
                                    Some((classes, s8)) => match dec_u64(s8) {
                                        Some((n_skip, s9)) => match dec_strs(s9, n_skip as nat) {
                                            Some((skip_dirs, s10)) => if s10.len() == 0 {
                                                Some(
                                                    IndexModel {
                                                        names,
                                                        edges,
                                                        functions,
                                                        classes,
                                                        skip_dirs,
                                                    },
                                                )
                                            } else {
                                                None
                                            },
                                            None => None,
                                        },
                                        None => None,
                                    },
                                    None => None,
                                },
                                None => None,
                            },
                            None => None,
                        },
                        None => None,
                    },
                    None => None,
                },
                None => None,
            },
            None => None,
        },
        None => None,
    }
}

/// A count field decodes to the count it encoded, leaving the rest.
pub proof fn lemma_dec_enc_u64(x: u64, rest: Seq<u8>)
    ensures
        dec_u64(enc_u64(x) + rest) == Some((x, rest)),
{
    lemma_pow256_8();
    lemma_le_bytes_len(x as int, 8);
    let s = enc_u64(x) + rest;
    assert(s.take(8) =~= enc_u64(x));
    assert(s.skip(8) =~= rest);
    lemma_le_roundtrip(x as int, 8);
}

/// A character field decodes to the character it encoded.
pub proof fn lemma_dec_enc_char(c: char, rest: Seq<u8>)
    ensures
        dec_char(enc_char(c) + rest) == Some((c, rest)),
{
    lemma_pow256_4();
    lemma_le_bytes_len(c as int, 4);
    let s = enc_char(c) + rest;
    assert(s.take(4) =~= enc_char(c));
    assert(s.skip(4) =~= rest);
    assert(vstd::utf8::is_scalar(c as u32));
    lemma_le_roundtrip(c as int, 4);
    assert(le_value(s.take(4)) == c as int);
    assert(is_scalar_value(c as int));
    assert((c as int) as char == c);
}

/// A run of character fields decodes to the characters it encoded.
pub proof fn lemma_dec_enc_chars(s: Seq<char>, rest: Seq<u8>)
    ensures
        dec_chars(enc_chars(s) + rest, s.len()) == Some((s, rest)),
    decreases s.len(),
{
    if s.len() == 0 {
        assert(enc_chars(s) + rest =~= rest);
        assert(dec_chars(rest, 0) == Some((Seq::<char>::empty(), rest)));
        assert(s =~= Seq::<char>::empty());
    } else {
        assert(enc_chars(s) + rest =~= enc_char(s[0]) + (enc_chars(s.drop_first()) + rest));
        lemma_dec_enc_char(s[0], enc_chars(s.drop_first()) + rest);
        lemma_dec_enc_chars(s.drop_first(), rest);
        assert(seq![s[0]] + s.drop_first() =~= s);
    }
}

/// A length-prefixed string decodes to the string it encoded.
pub proof fn lemma_dec_enc_str(s: Seq<char>, rest: Seq<u8>)
    requires
        s.len() < pow256(8),
    ensures
        dec_str(enc_str(s) + rest) == Some((s, rest)),
{
    lemma_pow256_8();
    assert(enc_str(s) + rest =~= enc_u64(s.len() as u64) + (enc_chars(s) + rest));
    lemma_dec_enc_u64(s.len() as u64, enc_chars(s) + rest);
    lemma_dec_enc_chars(s, rest);
}

/// A run of length-prefixed strings decodes to the strings it encoded.
pub proof fn lemma_dec_enc_strs(ss: Seq<Seq<char>>, rest: Seq<u8>)
    requires
        forall|i: int| 0 <= i < ss.len() ==> (#[trigger] ss[i]).len() < pow256(8),
    ensures
        dec_strs(enc_strs(ss) + rest, ss.len()) == Some((ss, rest)),
    decreases ss.len(),
{
    if ss.len() == 0 {
        assert(enc_strs(ss) + rest =~= rest);
        assert(ss =~= Seq::<Seq<char>>::empty());
    } else {
        assert(enc_strs(ss) + rest =~= enc_str(ss[0]) + (enc_strs(ss.drop_first()) + rest));
        lemma_dec_enc_str(ss[0], enc_strs(ss.drop_first()) + rest);
        assert(forall|i: int|
            0 <= i < ss.drop_first().len() ==> ss.drop_first()[i] == ss[i + 1]);
        lemma_dec_enc_strs(ss.drop_first(), rest);
        assert(seq![ss[0]] + ss.drop_first() =~= ss);
    }
}

/// A run of id fields decodes to the ids it encoded.
pub proof fn lemma_dec_enc_ids(ids: Seq<u64>, rest: Seq<u8>)
    ensures
        dec_ids(enc_ids(ids) + rest, ids.len()) == Some((ids, rest)),
    decreases ids.len(),
{
    if ids.len() == 0 {
        assert(enc_ids(ids) + rest =~= rest);
        assert(ids =~= Seq::<u64>::empty());
    } else {
        assert(enc_ids(ids) + rest =~= enc_u64(ids[0]) + (enc_ids(ids.drop_first()) + rest));
        lemma_dec_enc_u64(ids[0], enc_ids(ids.drop_first()) + rest);
        lemma_dec_enc_ids(ids.drop_first(), rest);
        assert(seq![ids[0]] + ids.drop_first() =~= ids);
    }
}

/// An adjacency row decodes to the row it encoded.
pub proof fn lemma_dec_enc_edge(e: (u64, Seq<u64>), rest: Seq<u8>)
    requires
        e.1.len() < pow256(8),
    ensures
        dec_edge(enc_edge(e) + rest) == Some((e, rest)),
{
    lemma_pow256_8();
    assert(enc_edge(e) + rest =~= enc_u64(e.0) + (enc_u64(e.1.len() as u64) + (enc_ids(e.1)
        + rest)));
    lemma_dec_enc_u64(e.0, enc_u64(e.1.len() as u64) + (enc_ids(e.1) + rest));
    lemma_dec_enc_u64(e.1.len() as u64, enc_ids(e.1) + rest);
    lemma_dec_enc_ids(e.1, rest);
}

/// A run of adjacency rows decodes to the rows it encoded.
pub proof fn lemma_dec_enc_edges(es: Seq<(u64, Seq<u64>)>, rest: Seq<u8>)
    requires
        forall|i: int| 0 <= i < es.len() ==> (#[trigger] es[i]).1.len() < pow256(8),
    ensures
        dec_edges(enc_edges(es) + rest, es.len()) == Some((es, rest)),
    decreases es.len(),
{
    if es.len() == 0 {
        assert(enc_edges(es) + rest =~= rest);
        assert(es =~= Seq::<(u64, Seq<u64>)>::empty());
    } else {
        assert(enc_edges(es) + rest =~= enc_edge(es[0]) + (enc_edges(es.drop_first()) + rest));
        lemma_dec_enc_edge(es[0], enc_edges(es.drop_first()) + rest);
        assert(forall|i: int|
            0 <= i < es.drop_first().len() ==> es.drop_first()[i] == es[i + 1]);
        lemma_dec_enc_edges(es.drop_first(), rest);
        assert(seq![es[0]] + es.drop_first() =~= es);
    }
}

/// A function record decodes to the record it encoded.
pub proof fn lemma_dec_enc_fun(f: FunRecord, rest: Seq<u8>)
    requires
        f.name.len() < pow256(8),
        f.pkg.len() < pow256(8),
        f.body.len() < pow256(8),
    ensures
        dec_fun(enc_fun(f) + rest) == Some((f, rest)),
{
    assert(enc_fun(f) + rest =~= enc_str(f.name) + (enc_str(f.pkg) + (enc_str(f.body) + rest)));
    lemma_dec_enc_str(f.name, enc_str(f.pkg) + (enc_str(f.body) + rest));
    lemma_dec_enc_str(f.pkg, enc_str(f.body) + rest);
    lemma_dec_enc_str(f.body, rest);
}

/// A run of function records decodes to the records it encoded.
pub proof fn lemma_dec_enc_funs(fs: Seq<FunRecord>, rest: Seq<u8>)
    requires
        forall|i: int|
            0 <= i < fs.len() ==> (#[trigger] fs[i]).name.len() < pow256(8) && fs[i].pkg.len()
                < pow256(8) && fs[i].body.len() < pow256(8),
    ensures
        dec_funs(enc_funs(fs) + rest, fs.len()) == Some((fs, rest)),
    decreases fs.len(),
{
    if fs.len() == 0 {
        assert(enc_funs(fs) + rest =~= rest);
        assert(fs =~= Seq::<FunRecord>::empty());
    } else {
        assert(enc_funs(fs) + rest =~= enc_fun(fs[0]) + (enc_funs(fs.drop_first()) + rest));
        lemma_dec_enc_fun(fs[0], enc_funs(fs.drop_first()) + rest);
        assert(forall|i: int|
            0 <= i < fs.drop_first().len() ==> fs.drop_first()[i] == fs[i + 1]);
        lemma_dec_enc_funs(fs.drop_first(), rest);
        assert(seq![fs[0]] + fs.drop_first() =~= fs);
    }
}

/// A class record decodes to the record it encoded.
pub proof fn lemma_dec_enc_class(c: ClassRecord, rest: Seq<u8>)
    requires
        c.name.len() < pow256(8),
        c.declaration.len() < pow256(8),
    ensures
        dec_class(enc_class(c) + rest) == Some((c, rest)),
{
    assert(enc_class(c) + rest =~= enc_str(c.name) + (enc_str(c.declaration) + rest));
    lemma_dec_enc_str(c.name, enc_str(c.declaration) + rest);
    lemma_dec_enc_str(c.declaration, rest);
}

/// A run of class records decodes to the records it encoded.
pub proof fn lemma_dec_enc_classes(cs: Seq<ClassRecord>, rest: Seq<u8>)
    requires
        forall|i: int|
            0 <= i < cs.len() ==> (#[trigger] cs[i]).name.len() < pow256(8)
                && cs[i].declaration.len() < pow256(8),
    ensures
        dec_classes(enc_classes(cs) + rest, cs.len()) == Some((cs, rest)),
    decreases cs.len(),
{
    if cs.len() == 0 {
        assert(enc_classes(cs) + rest =~= rest);
        assert(cs =~= Seq::<ClassRecord>::empty());
    } else {
        assert(enc_classes(cs) + rest =~= enc_class(cs[0]) + (enc_classes(cs.drop_first())
            + rest));
        lemma_dec_enc_class(cs[0], enc_classes(cs.drop_first()) + rest);
        assert(forall|i: int|
            0 <= i < cs.drop_first().len() ==> cs.drop_first()[i] == cs[i + 1]);
        lemma_dec_enc_classes(cs.drop_first(), rest);
        assert(seq![cs[0]] + cs.drop_first() =~= cs);
    }
}

/// Loading the bytes that saving produced restores the symbol table, the
/// declaration store and the edge store exactly.
#[verifier::rlimit(80)]
pub proof fn lemma_load_of_save(m: IndexModel)
    requires
        model_bounded(m),
    ensures
        dec_index(enc_index(m)) == Some(m),
{
    lemma_pow256_8();
    let r9 = Seq::<u8>::empty();
    let t_skip = enc_strs(m.skip_dirs) + r9;
    assert(t_skip =~= enc_strs(m.skip_dirs));
    let r8 = enc_strs(m.skip_dirs);
    let r7 = enc_u64(m.skip_dirs.len() as u64) + r8;
    let r6 = enc_classes(m.classes) + r7;
    let r5 = enc_u64(m.classes.len() as u64) + r6;
    let r4 = enc_funs(m.functions) + r5;
    let r3 = enc_u64(m.functions.len() as u64) + r4;
    let r2 = enc_edges(m.edges) + r3;
    let r1 = enc_u64(m.edges.len() as u64) + r2;
    let r0 = enc_strs(m.names) + r1;
    assert(enc_index(m) == enc_u64(m.names.len() as u64) + r0);
    lemma_dec_enc_u64(m.names.len() as u64, r0);
    lemma_dec_enc_strs(m.names, r1);
    lemma_dec_enc_u64(m.edges.len() as u64, r2);
    lemma_dec_enc_edges(m.edges, r3);
    lemma_dec_enc_u64(m.functions.len() as u64, r4);
    lemma_dec_enc_funs(m.functions, r5);
    lemma_dec_enc_u64(m.classes.len() as u64, r6);
    lemma_dec_enc_classes(m.classes, r7);
    lemma_dec_enc_u64(m.skip_dirs.len() as u64, r8);
    lemma_dec_enc_strs(m.skip_dirs, r9);
    assert(dec_index(enc_index(m)) matches Some(d) && d =~= m);
}

/// The views of stored strings.
pub open spec fn str_views(ss: Seq<String>) -> Seq<Seq<char>> {
    ss.map_values(|s: String| s@)
}

/// The views of stored adjacency rows.
pub open spec fn edge_views(es: Seq<EdgeList>) -> Seq<(u64, Seq<u64>)> {
    es.map_values(|e: EdgeList| (e.caller, e.callees@))
}

/// The views of stored function records.
pub open spec fn fun_views(fs: Seq<Function>) -> Seq<FunRecord> {
    fs.map_values(|f: Function| f@)
}

/// The views of stored class records.
pub open spec fn class_views(cs: Seq<Class>) -> Seq<ClassRecord> {
    cs.map_values(|c: Class| c@)
}

/// Appends an 8-byte count field.
fn write_u64(out: &mut Vec<u8>, x: u64)
    ensures
        final(out)@ == old(out)@ + enc_u64(x),
{
    let b0 = (x % 256) as u8;
    let x1 = x / 256;
    let b1 = (x1 % 256) as u8;
    let x2 = x1 / 256;
    let b2 = (x2 % 256) as u8;
    let x3 = x2 / 256;
    let b3 = (x3 % 256) as u8;
    let x4 = x3 / 256;
    let b4 = (x4 % 256) as u8;
    let x5 = x4 / 256;
    let b5 = (x5 % 256) as u8;
    let x6 = x5 / 256;
    let b6 = (x6 % 256) as u8;
    let x7 = x6 / 256;
    let b7 = (x7 % 256) as u8;
    let x8 = x7 / 256;
    out.push(b0);
    out.push(b1);
    out.push(b2);
    out.push(b3);
    out.push(b4);
    out.push(b5);
    out.push(b6);
    out.push(b7);
    proof {
        assert(le_bytes(x as int, 8) == seq![b0] + le_bytes(x1 as int, 7));
        assert(le_bytes(x1 as int, 7) == seq![b1] + le_bytes(x2 as int, 6));
        assert(le_bytes(x2 as int, 6) == seq![b2] + le_bytes(x3 as int, 5));
        assert(le_bytes(x3 as int, 5) == seq![b3] + le_bytes(x4 as int, 4));
        assert(le_bytes(x4 as int, 4) == seq![b4] + le_bytes(x5 as int, 3));
        assert(le_bytes(x5 as int, 3) == seq![b5] + le_bytes(x6 as int, 2));
        assert(le_bytes(x6 as int, 2) == seq![b6] + le_bytes(x7 as int, 1));
        assert(le_bytes(x7 as int, 1) == seq![b7] + le_bytes(x8 as int, 0));
        assert(le_bytes(x8 as int, 0) =~= Seq::<u8>::empty());
        assert(enc_u64(x) =~= seq![b0, b1, b2, b3, b4, b5, b6, b7]);
        assert(out@ =~= old(out)@ + enc_u64(x));
    }
}

/// Appends a 4-byte character field.
fn write_char(out: &mut Vec<u8>, c: char)
    ensures
        final(out)@ == old(out)@ + enc_char(c),
{
    let v = c as u32;
    let b0 = (v % 256) as u8;
    let v1 = v / 256;
    let b1 = (v1 % 256) as u8;
    let v2 = v1 / 256;
    let b2 = (v2 % 256) as u8;
    let v3 = v2 / 256;
    let b3 = (v3 % 256) as u8;
    let v4 = v3 / 256;
    out.push(b0);
    out.push(b1);
    out.push(b2);
    out.push(b3);
    proof {
        assert(v as int == c as int);
        assert(le_bytes(c as int, 4) == seq![b0] + le_bytes(v1 as int, 3));
        assert(le_bytes(v1 as int, 3) == seq![b1] + le_bytes(v2 as int, 2));
        assert(le_bytes(v2 as int, 2) == seq![b2] + le_bytes(v3 as int, 1));
        assert(le_bytes(v3 as int, 1) == seq![b3] + le_bytes(v4 as int, 0));
        assert(le_bytes(v4 as int, 0) =~= Seq::<u8>::empty());
        assert(enc_char(c) =~= seq![b0, b1, b2, b3]);
        assert(out@ =~= old(out)@ + enc_char(c));
    }
}

/// Appends the character fields of `s` from position `i` on.
fn write_chars(out: &mut Vec<u8>, s: &str, i: usize)
    requires
        i <= s@.len(),
    ensures
        final(out)@ == old(out)@ + enc_chars(s@.skip(i as int)),
    decreases s@.len() - i,
{
    let n = s.unicode_len();
    if i < n {
        let c = s.get_char(i);
        write_char(out, c);
        write_chars(out, s, i + 1);
        proof {
            let tail = s@.skip(i as int);
            assert(tail.drop_first() =~= s@.skip(i as int + 1));
            assert(tail[0] == s@[i as int]);
            assert(enc_chars(tail) == enc_char(s@[i as int]) + enc_chars(s@.skip(i as int + 1)));
            assert(out@ =~= old(out)@ + enc_chars(tail));
        }
    } else {
        proof {
            assert(s@.skip(i as int) =~= Seq::<char>::empty());
            assert(out@ =~= old(out)@ + enc_chars(s@.skip(i as int)));
        }
    }
}

/// Appends one length-prefixed string.
fn write_str(out: &mut Vec<u8>, s: &String)
    ensures
        final(out)@ == old(out)@ + enc_str(s@),
{
    let n = s.as_str().unicode_len();
    write_u64(out, n as u64);
    write_chars(out, s.as_str(), 0);
    proof {
        assert(s@.skip(0) =~= s@);
        assert(out@ =~= old(out)@ + enc_str(s@));
    }
}

/// Appends the length-prefixed strings of `ss` from position `i` on.
fn write_strs(out: &mut Vec<u8>, ss: &Vec<String>, i: usize)
    requires
        i <= ss@.len(),
    ensures
        final(out)@ == old(out)@ + enc_strs(str_views(ss@).skip(i as int)),
    decreases ss@.len() - i,
{
    let n = ss.len();
    if i < n {
        write_str(out, &ss[i]);
        write_strs(out, ss, i + 1);
        proof {
            let sv = str_views(ss@);
            let tail = sv.skip(i as int);
            assert(tail.drop_first() =~= sv.skip(i as int + 1));
            assert(tail[0] == ss@[i as int]@);
            assert(enc_strs(tail) == enc_str(ss@[i as int]@) + enc_strs(sv.skip(i as int + 1)));
            assert(out@ =~= old(out)@ + enc_strs(tail));
        }
    } else {
        proof {
            assert(str_views(ss@).skip(i as int) =~= Seq::<Seq<char>>::empty());
            assert(out@ =~= old(out)@ + enc_strs(str_views(ss@).skip(i as int)));
        }
    }
}

/// Appends the id fields of `ids` from position `i` on.
fn write_ids(out: &mut Vec<u8>, ids: &Vec<u64>, i: usize)
    requires
        i <= ids@.len(),
    ensures
        final(out)@ == old(out)@ + enc_ids(ids@.skip(i as int)),
    decreases ids@.len() - i,
{
    let n = ids.len();
    if i < n {
        write_u64(out, ids[i]);
        write_ids(out, ids, i + 1);
        proof {
            let tail = ids@.skip(i as int);
            assert(tail.drop_first() =~= ids@.skip(i as int + 1));
            assert(tail[0] == ids@[i as int]);
            assert(enc_ids(tail) == enc_u64(ids@[i as int]) + enc_ids(ids@.skip(i as int + 1)));
            assert(out@ =~= old(out)@ + enc_ids(tail));
        }
    } else {
        proof {
            assert(ids@.skip(i as int) =~= Seq::<u64>::empty());
            assert(out@ =~= old(out)@ + enc_ids(ids@.skip(i as int)));
        }
    }
}

/// Appends one adjacency row.
fn write_edge(out: &mut Vec<u8>, e: &EdgeList)
    ensures
        final(out)@ == old(out)@ + enc_edge((e.caller, e.callees@)),
{
    write_u64(out, e.caller);
    write_u64(out, e.callees.len() as u64);
    write_ids(out, &e.callees, 0);
    proof {
        assert(e.callees@.skip(0) =~= e.callees@);
        assert(out@ =~= old(out)@ + enc_edge((e.caller, e.callees@)));
    }
}

/// Appends the adjacency rows of `es` from position `i` on.
fn write_edges(out: &mut Vec<u8>, es: &Vec<EdgeList>, i: usize)
    requires
        i <= es@.len(),
    ensures
        final(out)@ == old(out)@ + enc_edges(edge_views(es@).skip(i as int)),
    decreases es@.len() - i,
{
    let n = es.len();
    if i < n {
        write_edge(out, &es[i]);
        write_edges(out, es, i + 1);
        proof {
            let ev = edge_views(es@);
            let tail = ev.skip(i as int);
            assert(tail.drop_first() =~= ev.skip(i as int + 1));
            assert(tail[0] == (es@[i as int].caller, es@[i as int].callees@));
            assert(enc_edges(tail) == enc_edge(tail[0]) + enc_edges(ev.skip(i as int + 1)));
            assert(out@ =~= old(out)@ + enc_edges(tail));
        }
    } else {
        proof {
            assert(edge_views(es@).skip(i as int) =~= Seq::<(u64, Seq<u64>)>::empty());
            assert(out@ =~= old(out)@ + enc_edges(edge_views(es@).skip(i as int)));
        }
    }
}

/// Appends one function record.
fn write_fun(out: &mut Vec<u8>, f: &Function)
    ensures
        final(out)@ == old(out)@ + enc_fun(f@),
{
    write_str(out, &f.name);
    write_str(out, &f.pkg);
    write_str(out, &f.body);
    proof {
        assert(out@ =~= old(out)@ + enc_fun(f@));
    }
}

/// Appends the function records of `fs` from position `i` on.
fn write_funs(out: &mut Vec<u8>, fs: &Vec<Function>, i: usize)
    requires
        i <= fs@.len(),
    ensures
        final(out)@ == old(out)@ + enc_funs(fun_views(fs@).skip(i as int)),
    decreases fs@.len() - i,
{
    let n = fs.len();
    if i < n {
        write_fun(out, &fs[i]);
        write_funs(out, fs, i + 1);
        proof {
            let fv = fun_views(fs@);
            let tail = fv.skip(i as int);
            assert(tail.drop_first() =~= fv.skip(i as int + 1));
            assert(tail[0] == fs@[i as int]@);
            assert(enc_funs(tail) == enc_fun(tail[0]) + enc_funs(fv.skip(i as int + 1)));
            assert(out@ =~= old(out)@ + enc_funs(tail));
        }
    } else {
        proof {
            assert(fun_views(fs@).skip(i as int) =~= Seq::<FunRecord>::empty());
            assert(out@ =~= old(out)@ + enc_funs(fun_views(fs@).skip(i as int)));
        }
    }
}

/// Appends one class record.
fn write_class(out: &mut Vec<u8>, c: &Class)
    ensures
        final(out)@ == old(out)@ + enc_class(c@),
{
    write_str(out, &c.name);
    write_str(out, &c.declaration);
    proof {
        assert(out@ =~= old(out)@ + enc_class(c@));
    }
}

/// Appends the class records of `cs` from position `i` on.
fn write_classes(out: &mut Vec<u8>, cs: &Vec<Class>, i: usize)
    requires
        i <= cs@.len(),
    ensures
        final(out)@ == old(out)@ + enc_classes(class_views(cs@).skip(i as int)),
    decreases cs@.len() - i,
{
    let n = cs.len();
    if i < n {
        write_class(out, &cs[i]);
        write_classes(out, cs, i + 1);
        proof {
            let cv = class_views(cs@);
            let tail = cv.skip(i as int);
            assert(tail.drop_first() =~= cv.skip(i as int + 1));
            assert(tail[0] == cs@[i as int]@);
            assert(enc_classes(tail) == enc_class(tail[0]) + enc_classes(cv.skip(i as int + 1)));
            assert(out@ =~= old(out)@ + enc_classes(tail));
        }
    } else {
        proof {
            assert(class_views(cs@).skip(i as int) =~= Seq::<ClassRecord>::empty());
            assert(out@ =~= old(out)@ + enc_classes(class_views(cs@).skip(i as int)));
        }
    }
}

impl CodeIndex {
    /// Serializes the whole aggregate to an opaque byte encoding.
    #[verifier::rlimit(80)]
    pub fn to_bytes(&self) -> (r: Vec<u8>)
        ensures
            r@ == enc_index(self@),
    {
        let mut out: Vec<u8> = Vec::new();
        let names = self.id_gen.names_vec();
        write_u64(&mut out, names.len() as u64);
        write_strs(&mut out, names, 0);
        write_u64(&mut out, self.edges.len() as u64);
        write_edges(&mut out, &self.edges, 0);
        write_u64(&mut out, self.functions.len() as u64);
        write_funs(&mut out, &self.functions, 0);
        write_u64(&mut out, self.classes.len() as u64);
        write_classes(&mut out, &self.classes, 0);
        write_u64(&mut out, self.skip_dirs.len() as u64);
        write_strs(&mut out, &self.skip_dirs, 0);
        proof {
            assert(str_views(names@).skip(0) =~= self@.names);
            assert(edge_views(self.edges@).skip(0) =~= self@.edges);
            assert(fun_views(self.functions@).skip(0) =~= self@.functions);
            assert(class_views(self.classes@).skip(0) =~= self@.classes);
            assert(str_views(self.skip_dirs@).skip(0) =~= self@.skip_dirs);
            let e1 = enc_u64(self@.names.len() as u64);
            let e2 = enc_strs(self@.names);
            let e3 = enc_u64(self@.edges.len() as u64);
            let e4 = enc_edges(self@.edges);
            let e5 = enc_u64(self@.functions.len() as u64);
            let e6 = enc_funs(self@.functions);
            let e7 = enc_u64(self@.classes.len() as u64);
            let e8 = enc_classes(self@.classes);
            let e9 = enc_u64(self@.skip_dirs.len() as u64);
            let e10 = enc_strs(self@.skip_dirs);
            assert(Seq::<u8>::empty() + e1 =~= e1);
            assert(out@ == e1 + e2 + e3 + e4 + e5 + e6 + e7 + e8 + e9 + e10);
            let t8 = e9 + e10;
            let t7 = e8 + t8;
            let t6 = e7 + t7;
            let t5 = e6 + t6;
            let t4 = e5 + t5;
            let t3 = e4 + t4;
            let t2 = e3 + t3;
            vstd::seq_lib::lemma_concat_associative(
                e1 + e2 + e3 + e4 + e5 + e6 + e7 + e8,
                e9,
                e10,
            );
            vstd::seq_lib::lemma_concat_associative(e1 + e2 + e3 + e4 + e5 + e6 + e7, e8, t8);
            vstd::seq_lib::lemma_concat_associative(e1 + e2 + e3 + e4 + e5 + e6, e7, t7);
            vstd::seq_lib::lemma_concat_associative(e1 + e2 + e3 + e4 + e5, e6, t6);
            vstd::seq_lib::lemma_concat_associative(e1 + e2 + e3 + e4, e5, t5);
            vstd::seq_lib::lemma_concat_associative(e1 + e2 + e3, e4, t4);
            vstd::seq_lib::lemma_concat_associative(e1 + e2, e3, t3);
            vstd::seq_lib::lemma_concat_associative(e1, e2, t2);
            assert(out@ == e1 + (e2 + (e3 + (e4 + (e5 + (e6 + (e7 + (e8 + (e9 + e10)))))))));
            assert(out@ == enc_index(self@));
        }
        out
    }
}

/// The error a malformed or structurally incompatible encoding raises; it is
/// fatal, and the input is to be treated as corrupt.
#[derive(Debug)]
pub enum DecodeError {
    Malformed,
}

/// Relies on char::from_u32: `Some` exactly for Unicode scalar values,
/// returning the character with that scalar value.
#[verifier::external_body]
fn char_from_u32(v: u32) -> (r: Option<char>)
    ensures
        match r {
            Some(c) => is_scalar_value(v as int) && c as u32 == v,
            None => !is_scalar_value(v as int),
        },
{
    char::from_u32(v)
}

/// Reads an 8-byte count field at `pos`.
fn read_u64(bytes: &Vec<u8>, pos: usize) -> (r: Option<(u64, usize)>)
    requires
        pos <= bytes@.len(),
    ensures
        match r {
            Some(vp) => pos <= vp.1 <= bytes@.len() && dec_u64(bytes@.skip(pos as int)) == Some(
                (vp.0, bytes@.skip(vp.1 as int)),
            ),
            None => dec_u64(bytes@.skip(pos as int)) is None,
        },
{
    let ghost s = bytes@.skip(pos as int);
    if bytes.len() - pos < 8 {
        proof {
            assert(s.len() < 8);
        }
        return None;
    }
    let b0 = bytes[pos];
    let b1 = bytes[pos + 1];
    let b2 = bytes[pos + 2];
    let b3 = bytes[pos + 3];
    let b4 = bytes[pos + 4];
    let b5 = bytes[pos + 5];
    let b6 = bytes[pos + 6];
    let b7 = bytes[pos + 7];
    let v = b0 as u64 + 256 * (b1 as u64 + 256 * (b2 as u64 + 256 * (b3 as u64 + 256 * (b4 as u64
        + 256 * (b5 as u64 + 256 * (b6 as u64 + 256 * (b7 as u64)))))));
    proof {
        let t = s.take(8);
        assert(t.len() == 8);
        assert(t[0] == b0 && t[1] == b1 && t[2] == b2 && t[3] == b3 && t[4] == b4 && t[5] == b5
            && t[6] == b6 && t[7] == b7);
        assert(t.skip(7).len() == 1);
        assert(t.skip(7)[0] == t[7]);
        assert(t.skip(7).drop_first() =~= t.skip(8));
        assert(t.skip(8).len() == 0);
        assert(le_value(t.skip(8)) == 0);
        assert(le_value(t.skip(7)) == t[7]);
        assert(t.skip(6).drop_first() =~= t.skip(7));
        assert(t.skip(6)[0] == t[6]);
        assert(le_value(t.skip(6)) == t[6] + 256 * le_value(t.skip(7)));
        assert(t.skip(5).drop_first() =~= t.skip(6));
        assert(t.skip(5)[0] == t[5]);
        assert(le_value(t.skip(5)) == t[5] + 256 * le_value(t.skip(6)));
        assert(t.skip(4).drop_first() =~= t.skip(5));
        assert(t.skip(4)[0] == t[4]);
        assert(le_value(t.skip(4)) == t[4] + 256 * le_value(t.skip(5)));
        assert(t.skip(3).drop_first() =~= t.skip(4));
        assert(t.skip(3)[0] == t[3]);
        assert(le_value(t.skip(3)) == t[3] + 256 * le_value(t.skip(4)));
        assert(t.skip(2).drop_first() =~= t.skip(3));
        assert(t.skip(2)[0] == t[2]);
        assert(le_value(t.skip(2)) == t[2] + 256 * le_value(t.skip(3)));
        assert(t.skip(1).drop_first() =~= t.skip(2));
        assert(t.skip(1)[0] == t[1]);
        assert(le_value(t.skip(1)) == t[1] + 256 * le_value(t.skip(2)));
        assert(t.drop_first() =~= t.skip(1));
        assert(le_value(t) == t[0] + 256 * le_value(t.skip(1)));
        assert(le_value(t) == v as int);
        assert(s.skip(8) =~= bytes@.skip(pos as int + 8));
    }
    Some((v, pos + 8))
}

/// Reads a 4-byte character field at `pos`.
fn read_char(bytes: &Vec<u8>, pos: usize) -> (r: Option<(char, usize)>)
    requires
        pos <= bytes@.len(),
    ensures
        match r {
            Some(cp) => pos <= cp.1 <= bytes@.len() && dec_char(bytes@.skip(pos as int)) == Some(
                (cp.0, bytes@.skip(cp.1 as int)),
            ),
            None => dec_char(bytes@.skip(pos as int)) is None,
        },
{
    let ghost s = bytes@.skip(pos as int);
    if bytes.len() - pos < 4 {
        proof {
            assert(s.len() < 4);
        }
        return None;
    }
    let b0 = bytes[pos];
    let b1 = bytes[pos + 1];
    let b2 = bytes[pos + 2];
    let b3 = bytes[pos + 3];
    let v = b0 as u32 + 256 * (b1 as u32 + 256 * (b2 as u32 + 256 * (b3 as u32)));
    proof {
        let t = s.take(4);
        assert(t.len() == 4);
        assert(t[0] == b0 && t[1] == b1 && t[2] == b2 && t[3] == b3);
        assert(t.skip(3).len() == 1);
        assert(t.skip(3)[0] == t[3]);
        assert(t.skip(3).drop_first() =~= t.skip(4));
        assert(t.skip(4).len() == 0);
        assert(le_value(t.skip(4)) == 0);
        assert(le_value(t.skip(3)) == t[3]);
        assert(t.skip(2).drop_first() =~= t.skip(3));
        assert(t.skip(2)[0] == t[2]);
        assert(le_value(t.skip(2)) == t[2] + 256 * le_value(t.skip(3)));
        assert(t.skip(1).drop_first() =~= t.skip(2));
        assert(t.skip(1)[0] == t[1]);
        assert(le_value(t.skip(1)) == t[1] + 256 * le_value(t.skip(2)));
        assert(t.drop_first() =~= t.skip(1));
        assert(le_value(t) == t[0] + 256 * le_value(t.skip(1)));
        assert(le_value(t) == v as int);
        assert(s.skip(4) =~= bytes@.skip(pos as int + 4));
    }
    match char_from_u32(v) {
        Some(c) => {
            proof {
                vstd::utf8::char_u32_cast(c, c as u32);
                assert((c as u32) as char == c);
                assert((le_value(bytes@.skip(pos as int).take(4)) as char) == c);
            }
            Some((c, pos + 4))
        },
        None => {
            proof {
                assert(!is_scalar_value(le_value(bytes@.skip(pos as int).take(4))));
            }
            None
        },
    }
}

/// Reads `n` character fields at `pos`, as a string.
fn read_chars(bytes: &Vec<u8>, pos: usize, n: u64) -> (r: Option<(String, usize)>)
    requires
        pos <= bytes@.len(),
    ensures
        match r {
            Some(sp) => pos <= sp.1 <= bytes@.len() && dec_chars(bytes@.skip(pos as int), n as nat)
                == Some((sp.0@, bytes@.skip(sp.1 as int))),
            None => dec_chars(bytes@.skip(pos as int), n as nat) is None,
        },
    decreases n,
{
    if n == 0 {
        let s = String::new();
        proof {
            assert(s@ =~= Seq::<char>::empty());
        }
        return Some((s, pos));
    }
    match read_char(bytes, pos) {
        Some((c, p1)) => match read_chars(bytes, p1, n - 1) {
            Some((tail, p2)) => {
                let mut s = String::new();
                push_char(&mut s, c);
                s.append(tail.as_str());
                proof {
                    assert(s@ =~= seq![c] + tail@);
                }
                Some((s, p2))
            },
            None => None,
        },
        None => None,
    }
}

/// Reads one length-prefixed string at `pos`.
fn read_str(bytes: &Vec<u8>, pos: usize) -> (r: Option<(String, usize)>)
    requires
        pos <= bytes@.len(),
    ensures
        match r {
            Some(sp) => pos <= sp.1 <= bytes@.len() && dec_str(bytes@.skip(pos as int)) == Some(
                (sp.0@, bytes@.skip(sp.1 as int)),
            ),
            None => dec_str(bytes@.skip(pos as int)) is None,
        },
{
    match read_u64(bytes, pos) {
        Some((n, p1)) => read_chars(bytes, p1, n),
        None => None,
    }
}

/// Reads `n` length-prefixed strings at `pos`.
fn read_strs(bytes: &Vec<u8>, pos: usize, n: u64) -> (r: Option<(Vec<String>, usize)>)
    requires
        pos <= bytes@.len(),
    ensures
        match r {
            Some(sp) => pos <= sp.1 <= bytes@.len() && dec_strs(bytes@.skip(pos as int), n as nat)
                == Some((str_views(sp.0@), bytes@.skip(sp.1 as int))),
            None => dec_strs(bytes@.skip(pos as int), n as nat) is None,
        },
    decreases n,
{
    if n == 0 {
        let v: Vec<String> = Vec::new();
        proof {
            assert(str_views(v@) =~= Seq::<Seq<char>>::empty());
        }
        return Some((v, pos));
    }
    match read_str(bytes, pos) {
        Some((s, p1)) => match read_strs(bytes, p1, n - 1) {
            Some((mut v, p2)) => {
                let ghost tail = str_views(v@);
                v.insert(0, s);
                proof {
                    assert(str_views(v@) =~= seq![s@] + tail);
                }
                Some((v, p2))
            },
            None => None,
        },
        None => None,
    }
}

/// Reads `n` id fields at `pos`.
fn read_ids(bytes: &Vec<u8>, pos: usize, n: u64) -> (r: Option<(Vec<u64>, usize)>)
    requires
        pos <= bytes@.len(),
    ensures
        match r {
            Some(vp) => pos <= vp.1 <= bytes@.len() && dec_ids(bytes@.skip(pos as int), n as nat)
                == Some((vp.0@, bytes@.skip(vp.1 as int))),
            None => dec_ids(bytes@.skip(pos as int), n as nat) is None,
        },
    decreases n,
{
    if n == 0 {
        let v: Vec<u64> = Vec::new();
        proof {
            assert(v@ =~= Seq::<u64>::empty());
        }
        return Some((v, pos));
    }
    match read_u64(bytes, pos) {
        Some((x, p1)) => match read_ids(bytes, p1, n - 1) {
            Some((mut v, p2)) => {
                let ghost tail = v@;
                v.insert(0, x);
                proof {
                    assert(v@ =~= seq![x] + tail);
                }
                Some((v, p2))
            },
            None => None,
        },
        None => None,
    }
}

/// Reads one adjacency row at `pos`.
fn read_edge(bytes: &Vec<u8>, pos: usize) -> (r: Option<(EdgeList, usize)>)
    requires
        pos <= bytes@.len(),
    ensures
        match r {
            Some(ep) => pos <= ep.1 <= bytes@.len() && dec_edge(bytes@.skip(pos as int)) == Some(
                ((ep.0.caller, ep.0.callees@), bytes@.skip(ep.1 as int)),
            ),
            None => dec_edge(bytes@.skip(pos as int)) is None,
        },
{
    match read_u64(bytes, pos) {
        Some((caller, p1)) => match read_u64(bytes, p1) {
            Some((n, p2)) => match read_ids(bytes, p2, n) {
                Some((callees, p3)) => Some((EdgeList { caller, callees }, p3)),
                None => None,
            },
            None => None,
        },
        None => None,
    }
}

/// Reads `n` adjacency rows at `pos`.
fn read_edges(bytes: &Vec<u8>, pos: usize, n: u64) -> (r: Option<(Vec<EdgeList>, usize)>)
    requires
        pos <= bytes@.len(),
    ensures
        match r {
            Some(vp) => pos <= vp.1 <= bytes@.len() && dec_edges(bytes@.skip(pos as int), n as nat)
                == Some((edge_views(vp.0@), bytes@.skip(vp.1 as int))),
            None => dec_edges(bytes@.skip(pos as int), n as nat) is None,
        },
    decreases n,
{
    if n == 0 {
        let v: Vec<EdgeList> = Vec::new();
        proof {
            assert(edge_views(v@) =~= Seq::<(u64, Seq<u64>)>::empty());
        }
        return Some((v, pos));
    }
    match read_edge(bytes, pos) {
        Some((e, p1)) => match read_edges(bytes, p1, n - 1) {
            Some((mut v, p2)) => {
                let ghost tail = edge_views(v@);
                let ghost ev = (e.caller, e.callees@);
                v.insert(0, e);
                proof {
                    assert(edge_views(v@) =~= seq![ev] + tail);
                }
                Some((v, p2))
            },
            None => None,
        },
        None => None,
    }
}

/// Reads one function record at `pos`.
fn read_fun(bytes: &Vec<u8>, pos: usize) -> (r: Option<(Function, usize)>)
    requires
        pos <= bytes@.len(),
    ensures
        match r {
            Some(fp) => pos <= fp.1 <= bytes@.len() && dec_fun(bytes@.skip(pos as int)) == Some(
                (fp.0@, bytes@.skip(fp.1 as int)),
            ),
            None => dec_fun(bytes@.skip(pos as int)) is None,
        },
{
    match read_str(bytes, pos) {
        Some((name, p1)) => match read_str(bytes, p1) {
            Some((pkg, p2)) => match read_str(bytes, p2) {
                Some((body, p3)) => Some((Function { name, pkg, body }, p3)),
                None => None,
            },
            None => None,
        },
        None => None,
    }
}

/// Reads `n` function records at `pos`.
fn read_funs(bytes: &Vec<u8>, pos: usize, n: u64) -> (r: Option<(Vec<Function>, usize)>)
    requires
        pos <= bytes@.len(),
    ensures
        match r {
            Some(vp) => pos <= vp.1 <= bytes@.len() && dec_funs(bytes@.skip(pos as int), n as nat)
                == Some((fun_views(vp.0@), bytes@.skip(vp.1 as int))),
            None => dec_funs(bytes@.skip(pos as int), n as nat) is None,
        },
    decreases n,
{
    if n == 0 {
        let v: Vec<Function> = Vec::new();
        proof {
            assert(fun_views(v@) =~= Seq::<FunRecord>::empty());
        }
        return Some((v, pos));
    }
    match read_fun(bytes, pos) {
        Some((f, p1)) => match read_funs(bytes, p1, n - 1) {
            Some((mut v, p2)) => {
                let ghost tail = fun_views(v@);
                let ghost fv = f@;
                v.insert(0, f);
                proof {
                    assert(fun_views(v@) =~= seq![fv] + tail);
                }
                Some((v, p2))
            },
            None => None,
        },
        None => None,
    }
}

/// Reads one class record at `pos`.
fn read_class(bytes: &Vec<u8>, pos: usize) -> (r: Option<(Class, usize)>)
    requires
        pos <= bytes@.len(),
    ensures
        match r {
            Some(cp) => pos <= cp.1 <= bytes@.len() && dec_class(bytes@.skip(pos as int)) == Some(
                (cp.0@, bytes@.skip(cp.1 as int)),
            ),
            None => dec_class(bytes@.skip(pos as int)) is None,
        },
{
    match read_str(bytes, pos) {
        Some((name, p1)) => match read_str(bytes, p1) {
            Some((declaration, p2)) => Some((Class { name, declaration }, p2)),
            None => None,
        },
        None => None,
    }
}

/// Reads `n` class records at `pos`.
fn read_classes(bytes: &Vec<u8>, pos: usize, n: u64) -> (r: Option<(Vec<Class>, usize)>)
    requires
        pos <= bytes@.len(),
    ensures
        match r {
            Some(vp) => pos <= vp.1 <= bytes@.len() && dec_classes(
                bytes@.skip(pos as int),
                n as nat,
            ) == Some((class_views(vp.0@), bytes@.skip(vp.1 as int))),
            None => dec_classes(bytes@.skip(pos as int), n as nat) is None,
        },
    decreases n,
{
    if n == 0 {
        let v: Vec<Class> = Vec::new();
        proof {
            assert(class_views(v@) =~= Seq::<ClassRecord>::empty());
        }
        return Some((v, pos));
    }
    match read_class(bytes, pos) {
        Some((c, p1)) => match read_classes(bytes, p1, n - 1) {
            Some((mut v, p2)) => {
                let ghost tail = class_views(v@);
                let ghost cv = c@;
                v.insert(0, c);
                proof {
                    assert(class_views(v@) =~= seq![cv] + tail);
                }
                Some((v, p2))
            },
            None => None,
        },
        None => None,
    }
}

impl CodeIndex {
    /// Restores an aggregate from the bytes `to_bytes` produced. Bytes of any
    /// other structural shape fail with a fatal decode error.
    #[verifier::rlimit(80)]
    pub fn from_bytes(bytes: &Vec<u8>) -> (r: Result<CodeIndex, DecodeError>)
        ensures
            match r {
                Ok(ci) => dec_index(bytes@) == Some(ci@),
                Err(_) => dec_index(bytes@) is None,
            },
    {
        proof {
            assert(bytes@.skip(0) =~= bytes@);
        }
        let (n_names, p1) = match read_u64(bytes, 0) {
            Some(x) => x,
            None => {
                return Err(DecodeError::Malformed);
            },
        };
        let (names, p2) = match read_strs(bytes, p1, n_names) {
            Some(x) => x,
            None => {
                return Err(DecodeError::Malformed);
            },
        };
        let (n_edges, p3) = match read_u64(bytes, p2) {
            Some(x) => x,
            None => {
                return Err(DecodeError::Malformed);
            },
        };
        let (edges, p4) = match read_edges(bytes, p3, n_edges) {
            Some(x) => x,
            None => {
                return Err(DecodeError::Malformed);
            },
        };
        let (n_funs, p5) = match read_u64(bytes, p4) {
            Some(x) => x,
            None => {
                return Err(DecodeError::Malformed);
            },
        };
        let (functions, p6) = match read_funs(bytes, p5, n_funs) {
            Some(x) => x,
            None => {
                return Err(DecodeError::Malformed);
            },
        };
        let (n_classes, p7) = match read_u64(bytes, p6) {
            Some(x) => x,
            None => {
                return Err(DecodeError::Malformed);
            },
        };
        let (classes, p8) = match read_classes(bytes, p7, n_classes) {
            Some(x) => x,
            None => {
                return Err(DecodeError::Malformed);
            },
        };
        let (n_skip, p9) = match read_u64(bytes, p8) {
            Some(x) => x,
            None => {
                return Err(DecodeError::Malformed);
            },
        };
        let (skip_dirs, p10) = match read_strs(bytes, p9, n_skip) {
            Some(x) => x,
            None => {
                return Err(DecodeError::Malformed);
            },
        };
        if p10 != bytes.len() {
            proof {
                assert(bytes@.skip(p10 as int).len() != 0);
            }
            return Err(DecodeError::Malformed);
        }
        let ci = CodeIndex {
            edges,
            functions,
            classes,
            skip_dirs,
            id_gen: IDGenerator::from_names(names),
        };
        proof {
            assert(bytes@.skip(p10 as int).len() == 0);
            assert(dec_index(bytes@) matches Some(d) && d =~= ci@);
        }
        Ok(ci)
    }
}

} // verus!
