//! Edit translator: between editor replace-range edits and operations.
//!
//! An editor edit replaces the range `[offset, offset + delete)` of the
//! current text with `text`; a batch applies its edits in order, each
//! against the text as updated by the ones before it.

use crate::laws::lemma_apply_compose;
use crate::laws::lemma_apply_splice;
use crate::laws::lemma_compose_lens;
use crate::laws::lemma_apply_len;
use crate::laws::lemma_apply_append;
use crate::laws::lemma_apply_runs;
use crate::ot::Atom;
use crate::ot::Operation;
use crate::ot::OtError;
use crate::ot::abase;
use crate::ot::apply_atoms;
use crate::ot::atarget;
use crate::ot::compose_atoms;
use crate::ot::dels;
use crate::ot::ins_atoms;
use crate::ot::keeps;
use crate::ot::lemma_lens_add;
use crate::ot::lemma_lens_one;
use crate::ot::lemma_lens_runs;
use vstd::prelude::*;

verus! {

/// One editor edit: replace `delete` characters at `offset` with `text`.
#[derive(Clone, Debug, PartialEq, Eq)]
pub struct TextModification {
    pub offset: usize,
    pub delete: usize,
    pub text: Vec<char>,
}

/// Failure of translation: an edit's range does not fit the running text.
#[derive(Clone, Copy, Debug, PartialEq, Eq, Structural)]
pub enum TranslateError {
    OutOfRange,
}

/// Whether one edit fits text of length `len` (and the result still fits
/// the machine).
pub open spec fn edit_ok(e: TextModification, len: int) -> bool {
    &&& e.offset + e.delete <= len
    &&& len - e.delete + e.text@.len() <= usize::MAX
}

/// Text length after one edit.
pub open spec fn edit_len(e: TextModification, len: int) -> int {
    len - e.delete + e.text@.len()
}

/// Whether a batch of edits fits text of length `len`, each edit against
/// the length as updated by the ones before it.
pub open spec fn edits_ok(es: Seq<TextModification>, len: int) -> bool
    decreases es.len(),
{
    es.len() == 0 || (edit_ok(es.first(), len) && edits_ok(
        es.drop_first(),
        edit_len(es.first(), len),
    ))
}

/// Text length after a batch of edits.
pub open spec fn edits_len(es: Seq<TextModification>, len: int) -> int
    decreases es.len(),
{
    if es.len() == 0 {
        len
    } else {
        edits_len(es.drop_first(), edit_len(es.first(), len))
    }
}

/// The text after one edit.
pub open spec fn apply_edit(e: TextModification, d: Seq<char>) -> Seq<char> {
    (d.take(e.offset as int) + e.text@) + d.skip(e.offset + e.delete)
}

/// The text after a batch of edits, applied in order.
pub open spec fn apply_edits(es: Seq<TextModification>, d: Seq<char>) -> Seq<char>
    decreases es.len(),
{
    if es.len() == 0 {
        d
    } else {
        apply_edits(es.drop_first(), apply_edit(es.first(), d))
    }
}

/// A batch extended by one edit: validity, final length, and effect.
pub proof fn lemma_edits_snoc(es: Seq<TextModification>, e: TextModification, len: int, d: Seq<
    char,
>)
    ensures
        edits_ok(es.push(e), len) == (edits_ok(es, len) && edit_ok(e, edits_len(es, len))),
        edits_len(es.push(e), len) == edit_len(e, edits_len(es, len)),
        apply_edits(es.push(e), d) == apply_edit(e, apply_edits(es, d)),
    decreases es.len(),
{
    if es.len() == 0 {
        assert(es.push(e).first() == e);
        assert(es.push(e).drop_first() =~= Seq::<TextModification>::empty());
        assert(edits_ok(Seq::<TextModification>::empty(), edit_len(e, len)));
        assert(edits_len(Seq::<TextModification>::empty(), edit_len(e, len)) == edit_len(e, len));
        assert(apply_edits(Seq::<TextModification>::empty(), apply_edit(e, d)) == apply_edit(e, d));
        assert(edits_len(es, len) == len);
        assert(apply_edits(es, d) == d);
    } else {
        assert(es.push(e).first() == es.first());
        assert(es.push(e).drop_first() =~= es.drop_first().push(e));
        lemma_edits_snoc(es.drop_first(), e, edit_len(es.first(), len), apply_edit(es.first(), d));
    }
}

/// A valid batch has a valid prefix.
pub proof fn lemma_edits_ok_split(es: Seq<TextModification>, i: int, len: int)
    requires
        0 <= i <= es.len(),
    ensures
        edits_ok(es, len) ==> (edits_ok(es.take(i), len) && edits_ok(
            es.skip(i),
            edits_len(es.take(i), len),
        )),
    decreases i,
{
    if i == 0 {
        assert(es.take(0) =~= Seq::<TextModification>::empty());
        assert(es.skip(0) =~= es);
    } else {
        if edits_ok(es, len) {
            assert(es.take(i).first() == es.first());
            assert(es.take(i).drop_first() =~= es.drop_first().take(i - 1));
            assert(es.skip(i) =~= es.drop_first().skip(i - 1));
            lemma_edits_ok_split(es.drop_first(), i - 1, edit_len(es.first(), len));
        }
    }
}

/// Translate a batch of editor edits, expressed against text of length
/// `len`, into one operation with the same effect on every such text.
pub fn edits_to_operation(changes: &Vec<TextModification>, len: usize) -> (r: Result<
    Operation,
    TranslateError,
>)
    ensures
        r is Ok <==> edits_ok(changes@, len as int),
        (r matches Ok(op) ==> op.wf() && abase(op.atoms()) == len && atarget(op.atoms())
            == edits_len(changes@, len as int) && forall|d: Seq<char>|
            d.len() == len ==> apply_atoms(op.atoms(), d) == apply_edits(changes@, d)),
        (r matches Err(e) ==> e == TranslateError::OutOfRange),
{
    let mut op = Operation::noop(len);
    let mut cur: usize = len;
    let mut i: usize = 0;
    proof {
        lemma_lens_runs(len as nat, Seq::<char>::empty());
        assert(changes@.take(0) =~= Seq::<TextModification>::empty());
        assert forall|d: Seq<char>| d.len() == len implies apply_atoms(op.atoms(), d)
            == apply_edits(changes@.take(0), d) by {
            crate::laws::lemma_apply_runs(len as nat, Seq::<char>::empty(), d);
        }
    }
    while i < changes.len()
        invariant
            i <= changes@.len(),
            op.wf(),
            abase(op.atoms()) == len,
            atarget(op.atoms()) == cur,
            edits_ok(changes@.take(i as int), len as int),
            cur == edits_len(changes@.take(i as int), len as int),
            forall|d: Seq<char>|
                d.len() == len ==> apply_atoms(op.atoms(), d) == apply_edits(
                    changes@.take(i as int),
                    d,
                ),
        decreases changes@.len() - i,
    {
        let e = &changes[i];
        let fits: bool = e.offset <= cur && e.delete <= cur - e.offset && e.text.len()
            <= usize::MAX - (cur - e.delete);
        if !fits {
            proof {
                let pre = changes@.take(i as int);
                assert(changes@.take(changes@.len() as int) =~= changes@);
                lemma_edits_ok_split(changes@, i as int, len as int);
                if edits_ok(changes@, len as int) {
                    assert(changes@.skip(i as int).first() == changes@[i as int]);
                    assert(!edit_ok(changes@[i as int], cur as int));
                    assert(!edits_ok(changes@.skip(i as int), cur as int));
                    assert(false);
                }
            }
            return Err(TranslateError::OutOfRange);
        }
        let rest: usize = cur - e.offset - e.delete;
        let mut step = Operation::new();
        proof {
            lemma_lens_runs(e.offset as nat, e.text@);
            lemma_lens_runs(e.delete as nat, e.text@);
            lemma_lens_runs(rest as nat, e.text@);
        }
        step.retain(e.offset);
        proof {
            assert(Seq::<crate::ot::Atom>::empty() + keeps(e.offset as nat) =~= keeps(
                e.offset as nat,
            ));
            lemma_lens_add(keeps(e.offset as nat), dels(e.delete as nat));
        }
        step.delete(e.delete);
        proof {
            lemma_lens_add(keeps(e.offset as nat) + dels(e.delete as nat), ins_atoms(e.text@));
        }
        step.insert(&e.text);
        proof {
            lemma_lens_add(
                (keeps(e.offset as nat) + dels(e.delete as nat)) + ins_atoms(e.text@),
                keeps(rest as nat),
            );
        }
        step.retain(rest);
        let composed_r = op.compose(&step);
        proof {
            assert(abase(step.atoms()) == cur);
            assert(composed_r is Ok);
        }
        let new_op = match composed_r {
            Ok(c) => c,
            Err(_) => Operation::new(),
        };
        proof {
            lemma_compose_lens(op.atoms(), step.atoms());
            let pre = changes@.take(i as int);
            assert(changes@.take(i + 1) =~= pre.push(changes@[i as int]));
            assert forall|d: Seq<char>| d.len() == len implies apply_atoms(new_op.atoms(), d)
                == apply_edits(changes@.take(i + 1), d) by {
                lemma_apply_compose(op.atoms(), step.atoms(), d);
                crate::laws::lemma_apply_len(op.atoms(), d);
                lemma_apply_splice(
                    e.offset as nat,
                    e.delete as nat,
                    e.text@,
                    rest as nat,
                    apply_atoms(op.atoms(), d),
                );
                lemma_edits_snoc(pre, changes@[i as int], len as int, d);
            }
            lemma_edits_snoc(pre, changes@[i as int], len as int, Seq::<char>::empty());
        }
        op = new_op;
        cur = cur - e.delete + e.text.len();
        i = i + 1;
    }
    proof {
        assert(changes@.take(changes@.len() as int) =~= changes@);
    }
    Ok(op)
}

/// The characters a keep-free atom run inserts, in order.
pub open spec fn run_text(s: Seq<Atom>) -> Seq<char>
    decreases s.len(),
{
    if s.len() == 0 {
        Seq::empty()
    } else {
        match s.first() {
            Atom::Ins(c) => seq![c] + run_text(s.drop_first()),
            _ => run_text(s.drop_first()),
        }
    }
}

/// The run text of a run extended by one atom.
pub proof fn lemma_run_text_push(s: Seq<Atom>, x: Atom)
    ensures
        run_text(s.push(x)) == run_text(s) + (match x {
            Atom::Ins(c) => seq![c],
            _ => Seq::<char>::empty(),
        }),
    decreases s.len(),
{
    if s.len() == 0 {
        assert(s.push(x).first() == x);
        assert(s.push(x).drop_first() =~= Seq::<Atom>::empty());
        assert(run_text(Seq::<Atom>::empty()) =~= Seq::<char>::empty());
        assert(run_text(s) =~= Seq::<char>::empty());
        match x {
            Atom::Ins(c) => {
                assert(seq![c] + Seq::<char>::empty() =~= seq![c]);
                assert(Seq::<char>::empty() + seq![c] =~= seq![c]);
            },
            _ => {
                assert(Seq::<char>::empty() + Seq::<char>::empty() =~= Seq::<char>::empty());
            },
        }
    } else {
        assert(s.push(x).first() == s.first());
        assert(s.push(x).drop_first() =~= s.drop_first().push(x));
        lemma_run_text_push(s.drop_first(), x);
        match s.first() {
            Atom::Ins(c) => {
                match x {
                    Atom::Ins(c2) => {
                        assert(seq![c] + (run_text(s.drop_first()) + seq![c2]) =~= (seq![c]
                            + run_text(s.drop_first())) + seq![c2]);
                    },
                    _ => {
                        assert(run_text(s.drop_first()) + Seq::<char>::empty() =~= run_text(
                            s.drop_first(),
                        ));
                        assert(run_text(s) + Seq::<char>::empty() =~= run_text(s));
                    },
                }
            },
            _ => {
                match x {
                    Atom::Ins(_) => {},
                    _ => {
                        assert(run_text(s.drop_first()) + Seq::<char>::empty() =~= run_text(
                            s.drop_first(),
                        ));
                        assert(run_text(s) + Seq::<char>::empty() =~= run_text(s));
                    },
                }
            },
        }
    }
}

/// Applying a keep-free run to the text it consumes yields exactly its
/// inserted characters.
pub proof fn lemma_run_apply(s: Seq<Atom>, m: Seq<char>)
    requires
        forall|q: int| 0 <= q < s.len() ==> s[q] != Atom::Keep,
        m.len() == abase(s),
    ensures
        apply_atoms(s, m) == run_text(s),
    decreases s.len(),
{
    if s.len() > 0 {
        assert forall|q: int| 0 <= q < s.drop_first().len() implies s.drop_first()[q]
            != Atom::Keep by {
            assert(s.drop_first()[q] == s[q + 1]);
        }
        match s.first() {
            Atom::Ins(_) => {
                lemma_run_apply(s.drop_first(), m);
            },
            Atom::Del => {
                assert(abase(s) == 1 + abase(s.drop_first()));
                lemma_run_apply(s.drop_first(), m.drop_first());
            },
            Atom::Keep => {
                assert(false);
            },
        }
    }
}

/// The operation whose atoms are `s` with everything after position `i`
/// still untouched: the processed prefix, then pure retain.
pub open spec fn padded(s: Seq<Atom>, i: int) -> Seq<Atom> {
    s.take(i) + keeps(abase(s.skip(i)))
}

/// Splicing one keep-free run `s[i..j]` into the text of `padded(s, i)`
/// at the target position of the processed prefix yields the text of
/// `padded(s, j)`.
pub proof fn lemma_pad_step(s: Seq<Atom>, i: int, j: int, d: Seq<char>)
    requires
        0 <= i <= j <= s.len(),
        forall|q: int| i <= q < j ==> s[q] != Atom::Keep,
        d.len() == abase(s),
    ensures
        ({
            let av = apply_atoms(padded(s, i), d);
            let pos = atarget(s.take(i)) as int;
            let k = abase(s.subrange(i, j)) as int;
            (av.take(pos) + run_text(s.subrange(i, j))) + av.skip(pos + k) == apply_atoms(
                padded(s, j),
                d,
            )
        }),
{
    let ti = s.take(i);
    let tj = s.take(j);
    let sub = s.subrange(i, j);
    let t = run_text(sub);
    assert(tj =~= ti + sub);
    lemma_lens_add(ti, sub);
    assert(s =~= ti + s.skip(i));
    lemma_lens_add(ti, s.skip(i));
    assert(s =~= tj + s.skip(j));
    lemma_lens_add(tj, s.skip(j));
    let bi = abase(ti) as int;
    let bj = abase(tj) as int;
    let k = abase(sub) as int;
    let pos = atarget(ti) as int;
    lemma_lens_runs(abase(s.skip(i)), Seq::<char>::empty());
    lemma_lens_runs(abase(s.skip(j)), Seq::<char>::empty());
    lemma_apply_append(ti, keeps(abase(s.skip(i))), d);
    assert(d.skip(bi).len() == abase(s.skip(i)));
    lemma_apply_runs(abase(s.skip(i)), Seq::<char>::empty(), d.skip(bi));
    assert(d.take(bi).len() == bi);
    lemma_apply_len(ti, d.take(bi));
    let tv = apply_atoms(ti, d.take(bi));
    assert(tv.len() == pos);
    assert(apply_atoms(padded(s, i), d) == tv + d.skip(bi));
    lemma_apply_append(tj, keeps(abase(s.skip(j))), d);
    lemma_apply_runs(abase(s.skip(j)), Seq::<char>::empty(), d.skip(bj));
    assert(d.take(bj).len() == bj);
    lemma_apply_append(ti, sub, d.take(bj));
    assert(d.take(bj).take(bi) =~= d.take(bi));
    lemma_run_apply(sub, d.take(bj).skip(bi));
    assert(apply_atoms(tj, d.take(bj)) == tv + t);
    assert(apply_atoms(padded(s, j), d) == (tv + t) + d.skip(bj));
    let av = apply_atoms(padded(s, i), d);
    assert(av.take(pos) =~= tv);
    assert(av.skip(pos + k) =~= d.skip(bj)) by {
        assert(av.skip(pos + k) =~= d.skip(bi).skip(k));
        assert(d.skip(bi).skip(k) =~= d.skip(bj));
    }
}

/// Convert an operation back into the minimal list of replace-range edits:
/// one per maximal non-retain run, offsets against the text as updated by
/// the preceding edits. Together with `edits_to_operation` this round
/// trips: the list has the same net effect on every text the operation
/// applies to.
pub fn operation_to_edits(op: &Operation) -> (r: Vec<TextModification>)
    requires
        op.wf(),
        abase(op.atoms()) + atarget(op.atoms()) <= usize::MAX,
    ensures
        edits_ok(r@, abase(op.atoms()) as int),
        forall|d: Seq<char>|
            d.len() == abase(op.atoms()) ==> apply_edits(r@, d) == apply_atoms(op.atoms(), d),
{
    let v = op.expand();
    let ghost s = v@;
    let n = v.len();
    let mut edits: Vec<TextModification> = Vec::new();
    let mut i: usize = 0;
    let mut pos: usize = 0;
    proof {
        assert(s.take(0) =~= Seq::<Atom>::empty());
        assert(s.skip(0) =~= s);
        assert(atarget(Seq::<Atom>::empty()) == 0);
        assert(padded(s, 0) =~= keeps(abase(s)));
        assert(Seq::<Atom>::empty() + keeps(abase(s)) =~= keeps(abase(s)));
        assert(edits_ok(Seq::<TextModification>::empty(), abase(s) as int));
        assert forall|d: Seq<char>| d.len() == abase(s) implies apply_edits(edits@, d)
            == apply_atoms(padded(s, 0), d) by {
            lemma_apply_runs(abase(s), Seq::<char>::empty(), d);
        }
    }
    while i < n
        invariant
            n == s.len(),
            v@ == s,
            i <= n,
            abase(s) + atarget(s) <= usize::MAX,
            pos == atarget(s.take(i as int)),
            edits_ok(edits@, abase(s) as int),
            edits_len(edits@, abase(s) as int) == atarget(s.take(i as int)) + abase(
                s.skip(i as int),
            ),
            forall|d: Seq<char>|
                d.len() == abase(s) ==> apply_edits(edits@, d) == apply_atoms(
                    padded(s, i as int),
                    d,
                ),
        decreases n - i,
    {
        proof {
            assert(s =~= s.take(i as int) + s.skip(i as int));
            lemma_lens_add(s.take(i as int), s.skip(i as int));
        }
        match v[i] {
            Atom::Keep => {
                proof {
                    assert(s.take(i + 1) =~= s.take(i as int).push(s[i as int]));
                    lemma_lens_add(s.take(i as int), seq![s[i as int]]);
                    lemma_lens_one(s[i as int]);
                    assert(s.take(i as int).push(s[i as int]) =~= s.take(i as int) + seq![
                        s[i as int],
                    ]);
                    assert(abase(s.skip(i as int)) == 1 + abase(s.skip(i + 1))) by {
                        assert(s.skip(i as int).first() == s[i as int]);
                        assert(s.skip(i as int).drop_first() =~= s.skip(i + 1));
                    }
                    assert(atarget(s.skip(i as int)) == 1 + atarget(s.skip(i + 1))) by {
                        assert(s.skip(i as int).first() == s[i as int]);
                        assert(s.skip(i as int).drop_first() =~= s.skip(i + 1));
                    }
                    assert(padded(s, i + 1) =~= padded(s, i as int));
                }
                pos = pos + 1;
                i = i + 1;
            },
            _ => {
                let start = i;
                let mut k: usize = 0;
                let mut t: Vec<char> = Vec::new();
                proof {
                    assert(s[start as int] != Atom::Keep);
                    assert(s.subrange(start as int, start as int) =~= Seq::<Atom>::empty());
                    assert(run_text(Seq::<Atom>::empty()) =~= Seq::<char>::empty());
                }
                loop
                    invariant
                        n == s.len(),
                        v@ == s,
                        start <= i <= n,
                        start < n,
                        s[start as int] != Atom::Keep,
                        abase(s) + atarget(s) <= usize::MAX,
                        forall|q: int| start <= q < i ==> s[q] != Atom::Keep,
                        k == abase(s.subrange(start as int, i as int)),
                        t@ == run_text(s.subrange(start as int, i as int)),
                    ensures
                        start < i <= n,
                        forall|q: int| start <= q < i ==> s[q] != Atom::Keep,
                        k == abase(s.subrange(start as int, i as int)),
                        t@ == run_text(s.subrange(start as int, i as int)),
                    decreases n - i,
                {
                    if i >= n {
                        break;
                    }
                    let stop: bool = match v[i] {
                        Atom::Keep => true,
                        _ => false,
                    };
                    if stop {
                        break;
                    }
                    let ghost sub = s.subrange(start as int, i as int);
                    proof {
                        assert(s.subrange(start as int, i + 1) =~= sub.push(s[i as int]));
                        lemma_run_text_push(sub, s[i as int]);
                        assert(sub.push(s[i as int]) =~= sub + seq![s[i as int]]);
                        lemma_lens_add(sub, seq![s[i as int]]);
                        lemma_lens_one(s[i as int]);
                        assert(s =~= s.take(i + 1) + s.skip(i + 1));
                        lemma_lens_add(s.take(i + 1), s.skip(i + 1));
                        assert(s.take(i + 1) =~= s.take(start as int) + s.subrange(
                            start as int,
                            i + 1,
                        ));
                        lemma_lens_add(s.take(start as int), s.subrange(start as int, i + 1));
                    }
                    match v[i] {
                        Atom::Ins(c) => {
                            t.push(c);
                            proof {
                                assert(run_text(sub) + seq![c] == t@);
                            }
                        },
                        Atom::Del => {
                            k = k + 1;
                            proof {
                                assert(run_text(sub) + Seq::<char>::empty() =~= run_text(sub));
                            }
                        },
                        Atom::Keep => {
                            proof {
                                assert(false);
                            }
                        },
                    }
                    i = i + 1;
                }
                let ghost sub = s.subrange(start as int, i as int);
                let ghost pre = edits@;
                let tl = t.len();
                let e = TextModification { offset: pos, delete: k, text: t };
                edits.push(e);
                proof {
                    assert(s.take(i as int) =~= s.take(start as int) + sub);
                    lemma_lens_add(s.take(start as int), sub);
                    lemma_lens_add(sub, s.skip(i as int));
                    assert(s.skip(start as int) =~= sub + s.skip(i as int));
                    let m = Seq::new(abase(sub), |q: int| ' ');
                    lemma_run_apply(sub, m);
                    lemma_apply_len(sub, m);
                    assert(tl == atarget(sub));
                    assert(s =~= s.take(i as int) + s.skip(i as int));
                    lemma_lens_add(s.take(i as int), s.skip(i as int));
                    let cur = atarget(s.take(start as int)) + abase(s.skip(start as int));
                    assert(edit_ok(e, cur as int));
                    lemma_edits_snoc(pre, e, abase(s) as int, Seq::<char>::empty());
                    assert forall|d: Seq<char>| d.len() == abase(s) implies apply_edits(edits@, d)
                        == apply_atoms(padded(s, i as int), d) by {
                        lemma_edits_snoc(pre, e, abase(s) as int, d);
                        lemma_pad_step(s, start as int, i as int, d);
                        lemma_lens_add(s.take(start as int), keeps(abase(s.skip(start as int))));
                        lemma_lens_runs(abase(s.skip(start as int)), Seq::<char>::empty());
                        lemma_apply_len(padded(s, start as int), d);
                    }
                }
                pos = pos + tl;
            },
        }
    }
    proof {
        assert(s.take(n as int) =~= s);
        assert(s.skip(n as int) =~= Seq::<Atom>::empty());
        assert(padded(s, n as int) =~= s);
        assert(s + keeps(0) =~= s);
    }
    edits
}

} // verus!
