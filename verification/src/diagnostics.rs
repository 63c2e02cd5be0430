use std::collections::HashMap;

use vstd::prelude::*;
use vstd::string::{StrSliceExecFns, StringExecFns};

use crate::import_graph::FileKey;

verus! {

broadcast use vstd::std_specs::hash::group_hash_axioms;

/// How serious a diagnostic is.
#[derive(Clone, Copy, Debug, PartialEq, Eq, Structural)]
pub enum Severity {
    Error,
    Warning,
}

/// A problem found while processing the nodes, reported against a file.
pub struct Diagnostic {
    pub severity: Severity,
    pub message: String,
}

/// The abstract value of a [`Diagnostic`].
pub struct DiagnosticView {
    pub severity: Severity,
    pub message: Seq<char>,
}

impl View for Diagnostic {
    type V = DiagnosticView;

    open spec fn view(&self) -> DiagnosticView {
        DiagnosticView { severity: self.severity, message: self.message@ }
    }
}

/// How `Debug` renders a string: quoted, with special characters escaped.
pub uninterp spec fn debug_str(s: Seq<char>) -> Seq<char>;

/// std's `Debug` formatting of a `str` (`format!("{:?}", s)`): the string
/// quoted, its special characters escaped. What it returns depends on the
/// string alone and is named by [`debug_str`].
#[verifier::external_body]
pub(crate) fn debug_quoted(s: &str) -> (r: String)
    ensures
        r@ == debug_str(s@),
{
    format!("{:?}", s)
}

/// The message for a node defined in several files.
pub open spec fn duplicate_message(name: Seq<char>) -> Seq<char> {
    "duplicate node identifier across files: "@ + debug_str(name)
}

/// The message for a transclusion of a node that is not defined once.
pub open spec fn dangling_transclusion_message(name: Seq<char>) -> Seq<char> {
    "dangling transclusion: "@ + name + " is not defined"@
}

/// The message for a link to a node that is not defined once.
pub open spec fn dangling_link_message(name: Seq<char>) -> Seq<char> {
    "dangling link: "@ + name + " is not defined"@
}

/// The message for a transclusion cycle through the nodes `sorted`.
pub open spec fn cycle_message(sorted: Seq<Seq<char>>) -> Seq<char> {
    "transclusion cycle: "@ + join(sorted, ", "@)
}

/// The parts, separated by `sep`.
pub open spec fn join(parts: Seq<Seq<char>>, sep: Seq<char>) -> Seq<char>
    decreases parts.len(),
{
    if parts.len() == 0 {
        Seq::empty()
    } else if parts.len() == 1 {
        parts[0]
    } else {
        join(parts.drop_last(), sep) + sep + parts.last()
    }
}

/// `a` comes before `b`: character by character, the first difference is
/// smaller in `a`, or `a` is a proper prefix of `b`. Since UTF-8 keeps the
/// order of code points, this is the order of `str`.
pub open spec fn char_seq_lt(a: Seq<char>, b: Seq<char>) -> bool
    decreases a.len(),
{
    if b.len() == 0 {
        false
    } else if a.len() == 0 {
        true
    } else if a[0] != b[0] {
        (a[0] as u32) < (b[0] as u32)
    } else {
        char_seq_lt(a.drop_first(), b.drop_first())
    }
}

/// Each part comes no later than the parts after it.
pub open spec fn is_sorted(parts: Seq<Seq<char>>) -> bool {
    forall|i: int, j: int| 0 <= i < j < parts.len() ==> !char_seq_lt(#[trigger] parts[j], #[trigger] parts[i])
}

/// The order is decided at the first difference.
proof fn lemma_lt_at(a: Seq<char>, b: Seq<char>, i: int)
    requires
        0 <= i <= a.len(),
        i <= b.len(),
        a.take(i) == b.take(i),
        i == a.len() || i == b.len() || a[i] != b[i],
    ensures
        char_seq_lt(a, b) == if i < a.len() && i < b.len() {
            (a[i] as u32) < (b[i] as u32)
        } else {
            i == a.len() && i < b.len()
        },
    decreases i,
{
    if i > 0 {
        assert(a[0] == a.take(i)[0]);
        assert(b[0] == b.take(i)[0]);
        assert(a.drop_first().take(i - 1) =~= a.take(i).drop_first());
        assert(b.drop_first().take(i - 1) =~= b.take(i).drop_first());
        lemma_lt_at(a.drop_first(), b.drop_first(), i - 1);
        if i < a.len() {
            assert(a.drop_first()[i - 1] == a[i]);
        }
        if i < b.len() {
            assert(b.drop_first()[i - 1] == b[i]);
        }
    }
}

/// The order is transitive.
proof fn lemma_lt_trans(a: Seq<char>, b: Seq<char>, c: Seq<char>)
    requires
        char_seq_lt(a, b),
        char_seq_lt(b, c),
    ensures
        char_seq_lt(a, c),
    decreases a.len(),
{
    if a.len() > 0 && b.len() > 0 && c.len() > 0 && a[0] == b[0] && b[0] == c[0] {
        lemma_lt_trans(a.drop_first(), b.drop_first(), c.drop_first());
    }
}

/// Whether `a` comes before `b`.
fn lex_less(a: &str, b: &str) -> (r: bool)
    ensures
        r == char_seq_lt(a@, b@),
{
    let la = a.unicode_len();
    let lb = b.unicode_len();
    let mut i: usize = 0;
    while i < la && i < lb
        invariant
            la == a@.len(),
            lb == b@.len(),
            i <= la,
            i <= lb,
            a@.take(i as int) == b@.take(i as int),
        decreases la - i,
    {
        let ca = a.get_char(i);
        let cb = b.get_char(i);
        if ca != cb {
            proof {
                lemma_lt_at(a@, b@, i as int);
            }
            return (ca as u32) < (cb as u32);
        }
        proof {
            assert(a@.take(i + 1) =~= a@.take(i as int).push(ca));
            assert(b@.take(i + 1) =~= b@.take(i as int).push(cb));
        }
        i = i + 1;
    }
    proof {
        lemma_lt_at(a@, b@, i as int);
    }
    i == la && i < lb
}

/// The names in order, as [`char_seq_lt`] orders them.
pub fn sort_names(names: Vec<String>) -> (out: Vec<String>)
    ensures
        out@.map_values(|s: String| s@).to_multiset() == names@.map_values(|s: String| s@).to_multiset(),
        is_sorted(out@.map_values(|s: String| s@)),
{
    broadcast use vstd::seq_lib::group_to_multiset_ensures;

    let ghost all = names@.map_values(|s: String| s@);
    let mut rest = names;
    let mut out: Vec<String> = Vec::new();
    while rest.len() > 0
        invariant
            out@.map_values(|s: String| s@).to_multiset().add(rest@.map_values(|s: String| s@).to_multiset())
                == all.to_multiset(),
            is_sorted(out@.map_values(|s: String| s@)),
            forall|i: int, r: int|
                0 <= i < out@.len() && 0 <= r < rest@.len() ==> !char_seq_lt(#[trigger] rest@[r]@, #[trigger] out@[i]@),
        decreases rest@.len(),
    {
        let mut m: usize = 0;
        let mut k: usize = 1;
        proof {
            lemma_lt_self(rest@[0]@);
        }
        while k < rest.len()
            invariant
                0 <= m < rest@.len(),
                m < k <= rest@.len(),
                forall|q: int| 0 <= q < k ==> !char_seq_lt(#[trigger] rest@[q]@, rest@[m as int]@),
            decreases rest@.len() - k,
        {
            if lex_less(rest[k].as_str(), rest[m].as_str()) {
                proof {
                    assert forall|q: int| 0 <= q < k + 1 implies !char_seq_lt(#[trigger] rest@[q]@, rest@[k as int]@) by {
                        if q < k && char_seq_lt(rest@[q]@, rest@[k as int]@) {
                            lemma_lt_trans(rest@[q]@, rest@[k as int]@, rest@[m as int]@);
                        }
                        if q == k {
                            if char_seq_lt(rest@[q]@, rest@[q]@) {
                                lemma_lt_self(rest@[q]@);
                            }
                        }
                    }
                }
                m = k;
            }
            k = k + 1;
        }
        let ghost before_rest = rest@;
        let ghost before_out = out@;
        let x = rest.remove(m);
        out.push(x);
        proof {
            let rv = before_rest.map_values(|s: String| s@);
            let ov = before_out.map_values(|s: String| s@);
            assert(rest@.map_values(|s: String| s@) =~= rv.remove(m as int));
            assert(out@.map_values(|s: String| s@) =~= ov.push(x@));
            assert(rv[m as int] == x@);
            rv.to_multiset_ensures();
            ov.to_multiset_ensures();
            assert(rv.remove(m as int).to_multiset() =~= rv.to_multiset().remove(x@));
            assert(ov.push(x@).to_multiset() =~= ov.to_multiset().insert(x@));
            assert(rv.to_multiset().count(x@) > 0);
            assert(out@.map_values(|s: String| s@).to_multiset().add(rest@.map_values(|s: String| s@).to_multiset())
                =~= ov.to_multiset().add(rv.to_multiset()));
            let nv = out@.map_values(|s: String| s@);
            assert forall|i: int, j: int| 0 <= i < j < nv.len() implies !char_seq_lt(#[trigger] nv[j], #[trigger] nv[i]) by {
                if j < ov.len() {
                    assert(nv[i] == ov[i] && nv[j] == ov[j]);
                } else {
                    assert(nv[j] == before_rest[m as int]@);
                    assert(nv[i] == before_out[i]@);
                }
            }
            assert forall|i: int, r: int|
                0 <= i < out@.len() && 0 <= r < rest@.len() implies !char_seq_lt(#[trigger] rest@[r]@, #[trigger] out@[i]@) by {
                let rr = if r < m { r } else { r + 1 };
                assert(rest@[r] == before_rest[rr]);
                if i < before_out.len() {
                    assert(out@[i] == before_out[i]);
                } else {
                    assert(out@[i] == before_rest[m as int]);
                }
            }
        }
    }
    proof {
        assert(rest@.map_values(|s: String| s@) =~= Seq::<Seq<char>>::empty());
        assert(out@.map_values(|s: String| s@).to_multiset().add(Seq::<Seq<char>>::empty().to_multiset())
            =~= out@.map_values(|s: String| s@).to_multiset());
    }
    out
}

/// No sequence comes before itself.
proof fn lemma_lt_self(a: Seq<char>)
    ensures
        !char_seq_lt(a, a),
    decreases a.len(),
{
    if a.len() > 0 {
        lemma_lt_self(a.drop_first());
    }
}

/// The names, separated by `sep`.
pub fn join_names(names: &Vec<String>, sep: &str) -> (r: String)
    ensures
        r@ == join(names@.map_values(|s: String| s@), sep@),
{
    let ghost parts = names@.map_values(|s: String| s@);
    let mut r = String::new();
    let mut i: usize = 0;
    while i < names.len()
        invariant
            i <= names@.len(),
            parts == names@.map_values(|s: String| s@),
            r@ == join(parts.take(i as int), sep@),
        decreases names@.len() - i,
    {
        let ghost before = r@;
        if i > 0 {
            r = r.concat(sep);
        }
        r = r.concat(names[i].as_str());
        proof {
            let next = parts.take(i + 1);
            assert(next.drop_last() =~= parts.take(i as int));
            assert(next.last() == names@[i as int]@);
            if i == 0 {
                assert(before =~= Seq::<char>::empty());
                assert(r@ =~= next[0]);
            }
        }
        i = i + 1;
    }
    proof {
        assert(parts.take(names@.len() as int) =~= parts);
    }
    r
}

/// Builds the message for a node defined in several files.
pub fn duplicate_node_identifier_message(name: &str) -> (m: String)
    ensures
        m@ == duplicate_message(name@),
{
    String::from_str("duplicate node identifier across files: ").concat(debug_quoted(name).as_str())
}

/// Builds the message for a transclusion of a node that is not defined once.
pub fn dangling_transclusion_text(name: &str) -> (m: String)
    ensures
        m@ == dangling_transclusion_message(name@),
{
    String::from_str("dangling transclusion: ").concat(name).concat(" is not defined")
}

/// Builds the message for a link to a node that is not defined once.
pub fn dangling_link_text(name: &str) -> (m: String)
    ensures
        m@ == dangling_link_message(name@),
{
    String::from_str("dangling link: ").concat(name).concat(" is not defined")
}

/// Builds the message for a transclusion cycle through `names`, listed in
/// order.
pub fn cycle_text(names: Vec<String>) -> (m: String)
    ensures
        exists|sorted: Seq<Seq<char>>|
            sorted.to_multiset() == names@.map_values(|s: String| s@).to_multiset() && is_sorted(sorted)
                && m@ == cycle_message(sorted),
{
    let sorted = sort_names(names);
    let joined = join_names(&sorted, ", ");
    String::from_str("transclusion cycle: ").concat(joined.as_str())
}

/// The diagnostics of each file, in order.
pub open spec fn grouped(flat: Seq<(FileKey, DiagnosticView)>) -> Map<FileKey, Seq<DiagnosticView>>
    decreases flat.len(),
{
    if flat.len() == 0 {
        Map::empty()
    } else {
        let g = grouped(flat.drop_last());
        let f = flat.last().0;
        let prev = if g.contains_key(f) {
            g[f]
        } else {
            Seq::empty()
        };
        g.insert(f, prev.push(flat.last().1))
    }
}

/// The view of a list of diagnostics and their files.
pub open spec fn flat_view(flat: Seq<(FileKey, Diagnostic)>) -> Seq<(FileKey, DiagnosticView)> {
    flat.map_values(|p: (FileKey, Diagnostic)| (p.0, p.1@))
}

/// Groups the diagnostics by file, keeping their order.
pub fn group_by_file(flat: Vec<(FileKey, Diagnostic)>) -> (g: HashMap<FileKey, Vec<Diagnostic>>)
    ensures
        g@.dom() == grouped(flat_view(flat@)).dom(),
        forall|f: FileKey| #[trigger] g@.contains_key(f) ==> g@[f]@.map_values(|d: Diagnostic| d@) == grouped(
            flat_view(flat@),
        )[f],
{
    let ghost all = flat_view(flat@);
    let mut g: HashMap<FileKey, Vec<Diagnostic>> = HashMap::new();
    proof {
        assert(all.take(0) =~= Seq::<(FileKey, DiagnosticView)>::empty());
        assert(g@.dom() =~= grouped(all.take(0)).dom());
    }
    for item in it: flat
        invariant
            all == flat_view(it.seq()),
            g@.dom() == grouped(all.take(it.index() as int)).dom(),
            forall|f: FileKey| #[trigger] g@.contains_key(f) ==> g@[f]@.map_values(|d: Diagnostic| d@) == grouped(
                all.take(it.index() as int),
            )[f],
    {
        let ghost i = it.index() as int;
        let ghost g0 = g@;
        let (file, diagnostic) = item;
        let ghost dv = diagnostic@;
        let mut list = match g.remove(&file) {
            Some(v) => v,
            None => Vec::new(),
        };
        let ghost before = list@;
        list.push(diagnostic);
        g.insert(file, list);
        proof {
            let next = all.take(i + 1);
            assert(next.drop_last() =~= all.take(i));
            assert(next.last() == (file, dv));
            let target = grouped(next);
            assert(g@.dom() =~= target.dom());
            assert forall|f: FileKey| #[trigger] g@.contains_key(f) implies g@[f]@.map_values(|d: Diagnostic| d@) == target[f] by {
                if f == file {
                    assert(list@.map_values(|d: Diagnostic| d@) =~= before.map_values(|d: Diagnostic| d@).push(dv));
                    if g0.contains_key(file) {
                        assert(before == g0[file]@);
                    } else {
                        assert(before.len() == 0);
                        assert(before.map_values(|d: Diagnostic| d@) =~= Seq::<DiagnosticView>::empty());
                    }
                } else {
                    assert(g@[f] == g0[f]);
                }
            }
        }
    }
    proof {
        assert(all.take(all.len() as int) =~= all);
    }
    g
}


/// The entries in order of their names, as [`char_seq_lt`] orders them.
pub fn sort_entries<T>(entries: Vec<(String, T)>) -> (out: Vec<(String, T)>)
    ensures
        out@.len() == entries@.len(),
        forall|a: int| 0 <= a < out@.len() ==> entries@.contains(#[trigger] out@[a]),
        forall|b: int| 0 <= b < entries@.len() ==> out@.contains(#[trigger] entries@[b]),
        is_sorted(out@.map_values(|e: (String, T)| e.0@)),
{
    broadcast use vstd::seq_lib::group_to_multiset_ensures;

    let ghost all = entries@;
    let mut rest = entries;
    let mut out: Vec<(String, T)> = Vec::new();
    while rest.len() > 0
        invariant
            out@.to_multiset().add(rest@.to_multiset()) == all.to_multiset(),
            is_sorted(out@.map_values(|e: (String, T)| e.0@)),
            forall|i: int, r: int|
                0 <= i < out@.len() && 0 <= r < rest@.len() ==> !char_seq_lt(#[trigger] rest@[r].0@, #[trigger] out@[i].0@),
        decreases rest@.len(),
    {
        let mut m: usize = 0;
        let mut k: usize = 1;
        proof {
            lemma_lt_self(rest@[0].0@);
        }
        while k < rest.len()
            invariant
                0 <= m < rest@.len(),
                m < k <= rest@.len(),
                forall|q: int| 0 <= q < k ==> !char_seq_lt(#[trigger] rest@[q].0@, rest@[m as int].0@),
            decreases rest@.len() - k,
        {
            if lex_less(rest[k].0.as_str(), rest[m].0.as_str()) {
                proof {
                    assert forall|q: int| 0 <= q < k + 1 implies !char_seq_lt(#[trigger] rest@[q].0@, rest@[k as int].0@) by {
                        if q < k && char_seq_lt(rest@[q].0@, rest@[k as int].0@) {
                            lemma_lt_trans(rest@[q].0@, rest@[k as int].0@, rest@[m as int].0@);
                        }
                        if q == k {
                            lemma_lt_self(rest@[q].0@);
                        }
                    }
                }
                m = k;
            }
            k = k + 1;
        }
        let ghost before_rest = rest@;
        let ghost before_out = out@;
        let x = rest.remove(m);
        let ghost xv = x;
        out.push(x);
        proof {
            before_rest.to_multiset_ensures();
            before_out.to_multiset_ensures();
            assert(rest@ == before_rest.remove(m as int));
            assert(out@ == before_out.push(xv));
            assert(before_rest[m as int] == xv);
            assert(before_rest.remove(m as int).to_multiset() =~= before_rest.to_multiset().remove(xv));
            assert(before_out.push(xv).to_multiset() =~= before_out.to_multiset().insert(xv));
            assert(before_rest.to_multiset().count(xv) > 0);
            assert(out@.to_multiset().add(rest@.to_multiset()) =~= before_out.to_multiset().add(before_rest.to_multiset()));
            let nv = out@.map_values(|e: (String, T)| e.0@);
            let ov = before_out.map_values(|e: (String, T)| e.0@);
            assert forall|i: int, j: int| 0 <= i < j < nv.len() implies !char_seq_lt(#[trigger] nv[j], #[trigger] nv[i]) by {
                if j < ov.len() {
                    assert(nv[i] == ov[i] && nv[j] == ov[j]);
                } else {
                    assert(nv[j] == before_rest[m as int].0@);
                    assert(nv[i] == before_out[i].0@);
                }
            }
            assert forall|i: int, r: int|
                0 <= i < out@.len() && 0 <= r < rest@.len() implies !char_seq_lt(#[trigger] rest@[r].0@, #[trigger] out@[i].0@) by {
                let rr = if r < m { r } else { r + 1 };
                assert(rest@[r] == before_rest[rr]);
                if i < before_out.len() {
                    assert(out@[i] == before_out[i]);
                } else {
                    assert(out@[i] == before_rest[m as int]);
                }
            }
        }
    }
    proof {
        out@.to_multiset_ensures();
        all.to_multiset_ensures();
        assert(rest@ =~= Seq::<(String, T)>::empty());
        assert(rest@.to_multiset() =~= vstd::multiset::Multiset::empty());
        assert(out@.to_multiset() =~= all.to_multiset());
        assert forall|a: int| 0 <= a < out@.len() implies all.contains(#[trigger] out@[a]) by {
            assert(out@.contains(out@[a]));
            assert(out@.to_multiset().count(out@[a]) > 0);
        }
        assert forall|b: int| 0 <= b < all.len() implies out@.contains(#[trigger] all[b]) by {
            assert(all.contains(all[b]));
            assert(all.to_multiset().count(all[b]) > 0);
        }
    }
    out
}

} // verus!
