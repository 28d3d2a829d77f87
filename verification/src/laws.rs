//! Algebraic laws of the operation model: how lengths move through
//! `compose_atoms` and `transform_atoms`, that `compose` means "apply one,
//! then the other", and the convergence, associativity and identity
//! properties of the algebra.

use crate::ot::Atom;
use crate::ot::Operation;
use crate::ot::abase;
use crate::ot::all_keep;
use crate::ot::apply_atoms;
use crate::ot::atarget;
use crate::ot::compose_atoms;
use crate::ot::dels;
use crate::ot::ins_atom;
use crate::ot::ins_atoms;
use crate::ot::keeps;
use crate::ot::lemma_lens_add;
use crate::ot::lemma_lens_one;
use crate::ot::lemma_lens_runs;
use crate::ot::transform_atoms;
use vstd::prelude::*;

verus! {

/// A composition consumes what its first operand consumes and produces what
/// its second operand produces.
pub proof fn lemma_compose_lens(a: Seq<Atom>, b: Seq<Atom>)
    requires
        atarget(a) == abase(b),
    ensures
        abase(compose_atoms(a, b)) == abase(a),
        atarget(compose_atoms(a, b)) == atarget(b),
    decreases a.len() + b.len(),
{
    if a.len() > 0 && a.first() == Atom::Del {
        lemma_compose_lens(a.drop_first(), b);
        lemma_lens_one(Atom::Del);
        lemma_lens_add(seq![Atom::Del], compose_atoms(a.drop_first(), b));
    } else if b.len() > 0 && b.first() is Ins {
        lemma_compose_lens(a, b.drop_first());
        lemma_lens_one(b.first());
        lemma_lens_add(seq![b.first()], compose_atoms(a, b.drop_first()));
    } else if a.len() > 0 && b.len() > 0 {
        lemma_compose_lens(a.drop_first(), b.drop_first());
        lemma_lens_one(a.first());
        lemma_lens_one(b.first());
        let rec = compose_atoms(a.drop_first(), b.drop_first());
        match (a.first(), b.first()) {
            (Atom::Keep, Atom::Keep) => {
                lemma_lens_add(seq![Atom::Keep], rec);
            },
            (Atom::Keep, Atom::Del) => {
                lemma_lens_add(seq![Atom::Del], rec);
            },
            (Atom::Ins(_), Atom::Keep) => {
                lemma_lens_add(seq![a.first()], rec);
            },
            (Atom::Ins(_), Atom::Del) => {},
            _ => {
                assert(false);
            },
        }
    } else {
        if a.len() > 0 {
            assert(atarget(a) == 1 + atarget(a.drop_first()));
            assert(b.len() > 0);
            assert(false);
        }
        if b.len() > 0 {
            assert(abase(b) == 1 + abase(b.drop_first()));
            assert(a.len() > 0);
            assert(false);
        }
    }
}

/// Applying an operation to text of its base length yields text of its
/// target length.
pub proof fn lemma_apply_len(a: Seq<Atom>, d: Seq<char>)
    requires
        d.len() == abase(a),
    ensures
        apply_atoms(a, d).len() == atarget(a),
    decreases a.len(),
{
    if a.len() > 0 {
        match a.first() {
            Atom::Ins(_) => {
                lemma_apply_len(a.drop_first(), d);
            },
            Atom::Keep => {
                assert(abase(a) == 1 + abase(a.drop_first()));
                lemma_apply_len(a.drop_first(), d.drop_first());
            },
            Atom::Del => {
                assert(abase(a) == 1 + abase(a.drop_first()));
                lemma_apply_len(a.drop_first(), d.drop_first());
            },
        }
    }
}

/// Each transformed half starts from the text the other original produces,
/// and both halves produce text of one and the same length.
pub proof fn lemma_transform_lens(a: Seq<Atom>, b: Seq<Atom>)
    requires
        abase(a) == abase(b),
    ensures
        abase(transform_atoms(a, b).0) == atarget(b),
        abase(transform_atoms(a, b).1) == atarget(a),
        atarget(transform_atoms(a, b).0) == atarget(transform_atoms(a, b).1),
    decreases a.len() + b.len(),
{
    if a.len() > 0 && a.first() is Ins {
        lemma_transform_lens(a.drop_first(), b);
        lemma_lens_one(a.first());
        lemma_lens_one(Atom::Keep);
        lemma_lens_add(seq![a.first()], transform_atoms(a.drop_first(), b).0);
        lemma_lens_add(seq![Atom::Keep], transform_atoms(a.drop_first(), b).1);
    } else if b.len() > 0 && b.first() is Ins {
        lemma_transform_lens(a, b.drop_first());
        lemma_lens_one(b.first());
        lemma_lens_one(Atom::Keep);
        lemma_lens_add(seq![Atom::Keep], transform_atoms(a, b.drop_first()).0);
        lemma_lens_add(seq![b.first()], transform_atoms(a, b.drop_first()).1);
    } else if a.len() > 0 && b.len() > 0 {
        lemma_transform_lens(a.drop_first(), b.drop_first());
        lemma_lens_one(Atom::Keep);
        lemma_lens_one(Atom::Del);
        let rec = transform_atoms(a.drop_first(), b.drop_first());
        match (a.first(), b.first()) {
            (Atom::Keep, Atom::Keep) => {
                lemma_lens_add(seq![Atom::Keep], rec.0);
                lemma_lens_add(seq![Atom::Keep], rec.1);
            },
            (Atom::Keep, Atom::Del) => {
                lemma_lens_add(seq![Atom::Del], rec.1);
            },
            (Atom::Del, Atom::Keep) => {
                lemma_lens_add(seq![Atom::Del], rec.0);
            },
            (Atom::Del, Atom::Del) => {},
            _ => {
                assert(false);
            },
        }
    } else {
        if a.len() > 0 {
            assert(abase(a) == 1 + abase(a.drop_first()));
            assert(b.len() > 0);
            assert(false);
        }
        if b.len() > 0 {
            assert(abase(b) == 1 + abase(b.drop_first()));
            assert(a.len() > 0);
            assert(false);
        }
    }
}

/// Composition means sequence: applying `compose_atoms(a, b)` is applying
/// `a`, then applying `b` to the result.
pub proof fn lemma_apply_compose(a: Seq<Atom>, b: Seq<Atom>, d: Seq<char>)
    requires
        atarget(a) == abase(b),
        d.len() == abase(a),
    ensures
        apply_atoms(compose_atoms(a, b), d) == apply_atoms(b, apply_atoms(a, d)),
    decreases a.len() + b.len(),
{
    if a.len() > 0 && a.first() == Atom::Del {
        assert(abase(a) == 1 + abase(a.drop_first()));
        let rec = compose_atoms(a.drop_first(), b);
        assert((seq![Atom::Del] + rec).first() == Atom::Del);
        assert((seq![Atom::Del] + rec).drop_first() =~= rec);
        lemma_apply_compose(a.drop_first(), b, d.drop_first());
    } else if b.len() > 0 && b.first() is Ins {
        let rec = compose_atoms(a, b.drop_first());
        assert((seq![b.first()] + rec).first() == b.first());
        assert((seq![b.first()] + rec).drop_first() =~= rec);
        lemma_apply_compose(a, b.drop_first(), d);
    } else if a.len() > 0 && b.len() > 0 {
        let rec = compose_atoms(a.drop_first(), b.drop_first());
        match (a.first(), b.first()) {
            (Atom::Keep, Atom::Keep) => {
                assert(abase(a) == 1 + abase(a.drop_first()));
                assert((seq![Atom::Keep] + rec).first() == Atom::Keep);
                assert((seq![Atom::Keep] + rec).drop_first() =~= rec);
                lemma_apply_compose(a.drop_first(), b.drop_first(), d.drop_first());
                let x = apply_atoms(a, d);
                assert(x == seq![d.first()] + apply_atoms(a.drop_first(), d.drop_first()));
                assert(x.len() > 0);
                assert(x.first() == d.first());
                assert(x.drop_first() =~= apply_atoms(a.drop_first(), d.drop_first()));
            },
            (Atom::Keep, Atom::Del) => {
                assert(abase(a) == 1 + abase(a.drop_first()));
                assert((seq![Atom::Del] + rec).first() == Atom::Del);
                assert((seq![Atom::Del] + rec).drop_first() =~= rec);
                lemma_apply_compose(a.drop_first(), b.drop_first(), d.drop_first());
                let x = apply_atoms(a, d);
                assert(x == seq![d.first()] + apply_atoms(a.drop_first(), d.drop_first()));
                assert(x.len() > 0);
                assert(x.drop_first() =~= apply_atoms(a.drop_first(), d.drop_first()));
            },
            (Atom::Ins(c), Atom::Keep) => {
                assert((seq![a.first()] + rec).first() == a.first());
                assert((seq![a.first()] + rec).drop_first() =~= rec);
                lemma_apply_compose(a.drop_first(), b.drop_first(), d);
                let x = apply_atoms(a, d);
                assert(x == seq![c] + apply_atoms(a.drop_first(), d));
                assert(x.len() > 0);
                assert(x.first() == c);
                assert(x.drop_first() =~= apply_atoms(a.drop_first(), d));
            },
            (Atom::Ins(c), Atom::Del) => {
                lemma_apply_compose(a.drop_first(), b.drop_first(), d);
                let x = apply_atoms(a, d);
                assert(x == seq![c] + apply_atoms(a.drop_first(), d));
                assert(x.len() > 0);
                assert(x.drop_first() =~= apply_atoms(a.drop_first(), d));
            },
            _ => {
                assert(false);
            },
        }
    } else {
        if a.len() > 0 {
            assert(atarget(a) == 1 + atarget(a.drop_first()));
            assert(b.len() > 0);
            assert(false);
        }
        if b.len() > 0 {
            assert(abase(b) == 1 + abase(b.drop_first()));
            assert(a.len() > 0);
            assert(false);
        }
        assert(d.len() == 0);
        assert(compose_atoms(a, b) =~= Seq::<Atom>::empty());
        assert(apply_atoms(a, d) =~= Seq::<char>::empty());
    }
}

/// The transformation diamond: starting from the same text, applying `b`
/// and then `a` rebased over `b` reaches the same text as applying `a` and
/// then `b` rebased over `a`.
pub proof fn lemma_transform_diamond(a: Seq<Atom>, b: Seq<Atom>, d: Seq<char>)
    requires
        abase(a) == abase(b),
        d.len() == abase(a),
    ensures
        apply_atoms(transform_atoms(a, b).0, apply_atoms(b, d)) == apply_atoms(
            transform_atoms(a, b).1,
            apply_atoms(a, d),
        ),
    decreases a.len() + b.len(),
{
    if a.len() > 0 && a.first() is Ins {
        let r = transform_atoms(a.drop_first(), b);
        assert(transform_atoms(a, b).0 == seq![a.first()] + r.0);
        assert(transform_atoms(a, b).1 == seq![Atom::Keep] + r.1);
        lemma_transform_diamond(a.drop_first(), b, d);
        match a.first() {
            Atom::Ins(c) => {
                let x = seq![a.first()] + r.0;
                assert(x.first() == a.first());
                assert(x.drop_first() =~= r.0);
                let av = apply_atoms(a, d);
                assert(av == seq![c] + apply_atoms(a.drop_first(), d));
                assert(av.len() > 0);
                assert(av.first() == c);
                assert(av.drop_first() =~= apply_atoms(a.drop_first(), d));
                let y = seq![Atom::Keep] + r.1;
                assert(y.first() == Atom::Keep);
                assert(y.drop_first() =~= r.1);
            },
            _ => {
                assert(false);
            },
        }
    } else if b.len() > 0 && b.first() is Ins {
        let r = transform_atoms(a, b.drop_first());
        assert(transform_atoms(a, b).0 == seq![Atom::Keep] + r.0);
        assert(transform_atoms(a, b).1 == seq![b.first()] + r.1);
        lemma_transform_diamond(a, b.drop_first(), d);
        match b.first() {
            Atom::Ins(c) => {
                let bv = apply_atoms(b, d);
                assert(bv == seq![c] + apply_atoms(b.drop_first(), d));
                assert(bv.len() > 0);
                assert(bv.first() == c);
                assert(bv.drop_first() =~= apply_atoms(b.drop_first(), d));
                let x = seq![Atom::Keep] + r.0;
                assert(x.first() == Atom::Keep);
                assert(x.drop_first() =~= r.0);
                let y = seq![b.first()] + r.1;
                assert(y.first() == b.first());
                assert(y.drop_first() =~= r.1);
            },
            _ => {
                assert(false);
            },
        }
    } else if a.len() > 0 && b.len() > 0 {
        assert(abase(a) == 1 + abase(a.drop_first()));
        assert(abase(b) == 1 + abase(b.drop_first()));
        let r = transform_atoms(a.drop_first(), b.drop_first());
        lemma_transform_diamond(a.drop_first(), b.drop_first(), d.drop_first());
        match (a.first(), b.first()) {
            (Atom::Keep, Atom::Keep) => {
                assert(transform_atoms(a, b).0 == seq![Atom::Keep] + r.0);
                assert(transform_atoms(a, b).1 == seq![Atom::Keep] + r.1);
                let av = apply_atoms(a, d);
                let bv = apply_atoms(b, d);
                assert(av == seq![d.first()] + apply_atoms(a.drop_first(), d.drop_first()));
                assert(bv == seq![d.first()] + apply_atoms(b.drop_first(), d.drop_first()));
                assert(av.len() > 0 && bv.len() > 0);
                assert(av.drop_first() =~= apply_atoms(a.drop_first(), d.drop_first()));
                assert(bv.drop_first() =~= apply_atoms(b.drop_first(), d.drop_first()));
                let x = seq![Atom::Keep] + r.0;
                assert(x.first() == Atom::Keep);
                assert(x.drop_first() =~= r.0);
                let y = seq![Atom::Keep] + r.1;
                assert(y.first() == Atom::Keep);
                assert(y.drop_first() =~= r.1);
            },
            (Atom::Keep, Atom::Del) => {
                assert(transform_atoms(a, b).0 == r.0);
                assert(transform_atoms(a, b).1 == seq![Atom::Del] + r.1);
                let av = apply_atoms(a, d);
                assert(av == seq![d.first()] + apply_atoms(a.drop_first(), d.drop_first()));
                assert(av.len() > 0);
                assert(av.drop_first() =~= apply_atoms(a.drop_first(), d.drop_first()));
                assert(apply_atoms(b, d) == apply_atoms(b.drop_first(), d.drop_first()));
                let y = seq![Atom::Del] + r.1;
                assert(y.first() == Atom::Del);
                assert(y.drop_first() =~= r.1);
            },
            (Atom::Del, Atom::Keep) => {
                assert(transform_atoms(a, b).0 == seq![Atom::Del] + r.0);
                assert(transform_atoms(a, b).1 == r.1);
                let bv = apply_atoms(b, d);
                assert(bv == seq![d.first()] + apply_atoms(b.drop_first(), d.drop_first()));
                assert(bv.len() > 0);
                assert(bv.drop_first() =~= apply_atoms(b.drop_first(), d.drop_first()));
                assert(apply_atoms(a, d) == apply_atoms(a.drop_first(), d.drop_first()));
                let x = seq![Atom::Del] + r.0;
                assert(x.first() == Atom::Del);
                assert(x.drop_first() =~= r.0);
            },
            (Atom::Del, Atom::Del) => {
                assert(transform_atoms(a, b).0 == r.0);
                assert(transform_atoms(a, b).1 == r.1);
                assert(apply_atoms(a, d) == apply_atoms(a.drop_first(), d.drop_first()));
                assert(apply_atoms(b, d) == apply_atoms(b.drop_first(), d.drop_first()));
            },
            _ => {
                assert(false);
            },
        }
    } else {
        if a.len() > 0 {
            assert(abase(a) == 1 + abase(a.drop_first()));
            assert(b.len() > 0);
            assert(false);
        }
        if b.len() > 0 {
            assert(abase(b) == 1 + abase(b.drop_first()));
            assert(a.len() > 0);
            assert(false);
        }
        assert(d.len() == 0);
    }
}

/// Convergence: for two operations over the same text, composing either one
/// with the other's transformed half reaches one and the same text.
pub proof fn lemma_convergence(a: Operation, b: Operation, d: Seq<char>)
    requires
        a.wf(),
        b.wf(),
        abase(a.atoms()) == abase(b.atoms()),
        d.len() == abase(a.atoms()),
    ensures
        ({
            let (a1, b1) = transform_atoms(a.atoms(), b.atoms());
            apply_atoms(compose_atoms(b.atoms(), a1), d) == apply_atoms(
                compose_atoms(a.atoms(), b1),
                d,
            )
        }),
{
    let (a1, b1) = transform_atoms(a.atoms(), b.atoms());
    lemma_transform_lens(a.atoms(), b.atoms());
    lemma_apply_compose(b.atoms(), a1, d);
    lemma_apply_compose(a.atoms(), b1, d);
    lemma_transform_diamond(a.atoms(), b.atoms(), d);
}

/// Composition is associative.
pub proof fn lemma_compose_assoc(a: Seq<Atom>, b: Seq<Atom>, c: Seq<Atom>)
    requires
        atarget(a) == abase(b),
        atarget(b) == abase(c),
    ensures
        compose_atoms(compose_atoms(a, b), c) == compose_atoms(a, compose_atoms(b, c)),
    decreases a.len() + b.len() + c.len(),
{
    if a.len() > 0 && a.first() == Atom::Del {
        let x = compose_atoms(a.drop_first(), b);
        assert((seq![Atom::Del] + x).first() == Atom::Del);
        assert((seq![Atom::Del] + x).drop_first() =~= x);
        lemma_compose_assoc(a.drop_first(), b, c);
    } else if b.len() > 0 && b.first() == Atom::Del {
        assert(abase(b) == 1 + abase(b.drop_first()));
        assert(a.len() > 0);
        let y = compose_atoms(b.drop_first(), c);
        assert(compose_atoms(b, c) == seq![Atom::Del] + y);
        assert((seq![Atom::Del] + y).first() == Atom::Del);
        assert((seq![Atom::Del] + y).drop_first() =~= y);
        match a.first() {
            Atom::Keep => {
                let x = compose_atoms(a.drop_first(), b.drop_first());
                assert(compose_atoms(a, b) == seq![Atom::Del] + x);
                assert((seq![Atom::Del] + x).first() == Atom::Del);
                assert((seq![Atom::Del] + x).drop_first() =~= x);
                lemma_compose_assoc(a.drop_first(), b.drop_first(), c);
            },
            Atom::Ins(_) => {
                assert(compose_atoms(a, b) == compose_atoms(a.drop_first(), b.drop_first()));
                lemma_compose_assoc(a.drop_first(), b.drop_first(), c);
            },
            Atom::Del => {
                assert(false);
            },
        }
    } else if c.len() > 0 && c.first() is Ins {
        let x = compose_atoms(a, b);
        if b.len() > 0 && b.first() is Ins {
            let t = compose_atoms(a, b.drop_first());
            assert(x == seq![b.first()] + t);
            assert(x.len() > 0 && x.first() == b.first());
        } else if a.len() > 0 && b.len() > 0 {
            match (a.first(), b.first()) {
                (Atom::Keep, Atom::Keep) => {
                    let t = compose_atoms(a.drop_first(), b.drop_first());
                    assert(x == seq![Atom::Keep] + t);
                    assert(x.len() > 0 && x.first() == Atom::Keep);
                },
                (Atom::Ins(_), Atom::Keep) => {
                    let t = compose_atoms(a.drop_first(), b.drop_first());
                    assert(x == seq![a.first()] + t);
                    assert(x.len() > 0 && x.first() == a.first());
                },
                _ => {
                    assert(false);
                },
            }
        } else {
            if a.len() > 0 {
                assert(atarget(a) == 1 + atarget(a.drop_first()));
                assert(b.len() > 0);
                assert(false);
            }
            if b.len() > 0 {
                assert(abase(b) == 1 + abase(b.drop_first()));
                assert(a.len() > 0);
                assert(false);
            }
            assert(x =~= Seq::<Atom>::empty());
        }
        assert(!(x.len() > 0 && x.first() == Atom::Del));
        let l = compose_atoms(x, c.drop_first());
        assert(compose_atoms(x, c) == seq![c.first()] + l);
        let y = compose_atoms(b, c.drop_first());
        assert(compose_atoms(b, c) == seq![c.first()] + y);
        assert((seq![c.first()] + y).first() == c.first());
        assert((seq![c.first()] + y).drop_first() =~= y);
        lemma_compose_assoc(a, b, c.drop_first());
    } else if b.len() > 0 && b.first() is Ins {
        assert(atarget(b) == 1 + atarget(b.drop_first()));
        assert(c.len() > 0);
        let x = compose_atoms(a, b.drop_first());
        assert(compose_atoms(a, b) == seq![b.first()] + x);
        assert((seq![b.first()] + x).first() == b.first());
        assert((seq![b.first()] + x).drop_first() =~= x);
        match c.first() {
            Atom::Keep => {
                let y = compose_atoms(b.drop_first(), c.drop_first());
                assert(compose_atoms(b, c) == seq![b.first()] + y);
                assert((seq![b.first()] + y).first() == b.first());
                assert((seq![b.first()] + y).drop_first() =~= y);
                lemma_compose_assoc(a, b.drop_first(), c.drop_first());
            },
            Atom::Del => {
                assert(compose_atoms(b, c) == compose_atoms(b.drop_first(), c.drop_first()));
                lemma_compose_assoc(a, b.drop_first(), c.drop_first());
            },
            Atom::Ins(_) => {
                assert(false);
            },
        }
    } else if b.len() > 0 {
        assert(b.first() == Atom::Keep);
        assert(abase(b) == 1 + abase(b.drop_first()));
        assert(atarget(b) == 1 + atarget(b.drop_first()));
        assert(a.len() > 0);
        assert(c.len() > 0);
        let x = compose_atoms(a.drop_first(), b.drop_first());
        let y = compose_atoms(b.drop_first(), c.drop_first());
        match (a.first(), c.first()) {
            (Atom::Keep, Atom::Keep) => {
                assert(compose_atoms(a, b) == seq![Atom::Keep] + x);
                assert((seq![Atom::Keep] + x).first() == Atom::Keep);
                assert((seq![Atom::Keep] + x).drop_first() =~= x);
                assert(compose_atoms(b, c) == seq![Atom::Keep] + y);
                assert((seq![Atom::Keep] + y).first() == Atom::Keep);
                assert((seq![Atom::Keep] + y).drop_first() =~= y);
                lemma_compose_assoc(a.drop_first(), b.drop_first(), c.drop_first());
            },
            (Atom::Keep, Atom::Del) => {
                assert(compose_atoms(a, b) == seq![Atom::Keep] + x);
                assert((seq![Atom::Keep] + x).first() == Atom::Keep);
                assert((seq![Atom::Keep] + x).drop_first() =~= x);
                assert(compose_atoms(b, c) == seq![Atom::Del] + y);
                assert((seq![Atom::Del] + y).first() == Atom::Del);
                assert((seq![Atom::Del] + y).drop_first() =~= y);
                lemma_compose_assoc(a.drop_first(), b.drop_first(), c.drop_first());
            },
            (Atom::Ins(_), Atom::Keep) => {
                assert(compose_atoms(a, b) == seq![a.first()] + x);
                assert((seq![a.first()] + x).first() == a.first());
                assert((seq![a.first()] + x).drop_first() =~= x);
                assert(compose_atoms(b, c) == seq![Atom::Keep] + y);
                assert((seq![Atom::Keep] + y).first() == Atom::Keep);
                assert((seq![Atom::Keep] + y).drop_first() =~= y);
                lemma_compose_assoc(a.drop_first(), b.drop_first(), c.drop_first());
            },
            (Atom::Ins(_), Atom::Del) => {
                assert(compose_atoms(a, b) == seq![a.first()] + x);
                assert((seq![a.first()] + x).first() == a.first());
                assert((seq![a.first()] + x).drop_first() =~= x);
                assert(compose_atoms(b, c) == seq![Atom::Del] + y);
                assert((seq![Atom::Del] + y).first() == Atom::Del);
                assert((seq![Atom::Del] + y).drop_first() =~= y);
                lemma_compose_assoc(a.drop_first(), b.drop_first(), c.drop_first());
            },
            _ => {
                assert(false);
            },
        }
    } else {
        if a.len() > 0 {
            assert(atarget(a) == 1 + atarget(a.drop_first()));
            assert(false);
        }
        if c.len() > 0 {
            assert(abase(c) == 1 + abase(c.drop_first()));
            assert(false);
        }
    }
}

/// The pure-retain no-op is the identity of composition, on either side.
pub proof fn lemma_compose_identity(op: Seq<Atom>, n: nat, m: nat)
    requires
        abase(op) == n,
        atarget(op) == m,
    ensures
        compose_atoms(keeps(n), op) == op,
        compose_atoms(op, keeps(m)) == op,
    decreases op.len(),
{
    lemma_lens_runs(n, Seq::<char>::empty());
    lemma_lens_runs(m, Seq::<char>::empty());
    if op.len() == 0 {
        assert(keeps(0) =~= Seq::<Atom>::empty());
        assert(compose_atoms(keeps(n), op) =~= Seq::<Atom>::empty());
        assert(compose_atoms(op, keeps(m)) =~= Seq::<Atom>::empty());
    } else {
        match op.first() {
            Atom::Keep => {
                assert(n >= 1 && m >= 1);
                assert(keeps(n).first() == Atom::Keep);
                assert(keeps(n).drop_first() =~= keeps((n - 1) as nat));
                assert(keeps(m).first() == Atom::Keep);
                assert(keeps(m).drop_first() =~= keeps((m - 1) as nat));
                lemma_compose_identity(op.drop_first(), (n - 1) as nat, (m - 1) as nat);
                assert(compose_atoms(keeps(n), op) == seq![Atom::Keep] + op.drop_first());
                assert(seq![Atom::Keep] + op.drop_first() =~= op);
                assert(compose_atoms(op, keeps(m)) == seq![Atom::Keep] + op.drop_first());
            },
            Atom::Ins(_) => {
                assert(m >= 1);
                assert(keeps(m).first() == Atom::Keep);
                assert(keeps(m).drop_first() =~= keeps((m - 1) as nat));
                lemma_compose_identity(op.drop_first(), n, (m - 1) as nat);
                assert(compose_atoms(keeps(n), op) == seq![op.first()] + op.drop_first());
                assert(seq![op.first()] + op.drop_first() =~= op);
                assert(compose_atoms(op, keeps(m)) == seq![op.first()] + op.drop_first());
            },
            Atom::Del => {
                assert(n >= 1);
                assert(keeps(n).first() == Atom::Keep);
                assert(keeps(n).drop_first() =~= keeps((n - 1) as nat));
                lemma_compose_identity(op.drop_first(), (n - 1) as nat, m);
                assert(compose_atoms(keeps(n), op) == seq![Atom::Del] + op.drop_first());
                assert(seq![Atom::Del] + op.drop_first() =~= op);
                assert(compose_atoms(op, keeps(m)) == seq![Atom::Del] + op.drop_first());
            },
        }
    }
}

/// A no-op sequence consumes and produces exactly its own length.
pub proof fn lemma_all_keep_lens(s: Seq<Atom>)
    requires
        all_keep(s),
    ensures
        abase(s) == s.len(),
        atarget(s) == s.len(),
    decreases s.len(),
{
    if s.len() > 0 {
        assert(s.first() == Atom::Keep);
        assert forall|i: int| 0 <= i < s.drop_first().len() implies s.drop_first()[i]
            == Atom::Keep by {
            assert(s.drop_first()[i] == s[i + 1]);
        }
        lemma_all_keep_lens(s.drop_first());
    }
}

/// Applying a concatenation applies each part to its share of the text.
pub proof fn lemma_apply_append(x: Seq<Atom>, y: Seq<Atom>, d: Seq<char>)
    requires
        d.len() == abase(x) + abase(y),
    ensures
        apply_atoms(x + y, d) == apply_atoms(x, d.take(abase(x) as int)) + apply_atoms(
            y,
            d.skip(abase(x) as int),
        ),
    decreases x.len(),
{
    if x.len() == 0 {
        assert(x + y =~= y);
        assert(d.take(0) =~= Seq::<char>::empty());
        assert(d.skip(0) =~= d);
        assert(apply_atoms(x, Seq::<char>::empty()) =~= Seq::<char>::empty());
        assert(Seq::<char>::empty() + apply_atoms(y, d) =~= apply_atoms(y, d));
    } else {
        let bx = abase(x) as int;
        assert((x + y).first() == x.first());
        assert((x + y).drop_first() =~= x.drop_first() + y);
        match x.first() {
            Atom::Ins(c) => {
                lemma_apply_append(x.drop_first(), y, d);
                assert(d.take(bx).len() == bx);
                assert(apply_atoms(x, d.take(bx)) == seq![c] + apply_atoms(
                    x.drop_first(),
                    d.take(bx),
                ));
                assert(seq![c] + (apply_atoms(x.drop_first(), d.take(bx)) + apply_atoms(
                    y,
                    d.skip(bx),
                )) =~= (seq![c] + apply_atoms(x.drop_first(), d.take(bx))) + apply_atoms(
                    y,
                    d.skip(bx),
                ));
            },
            Atom::Keep => {
                assert(abase(x) == 1 + abase(x.drop_first()));
                assert(d.len() > 0);
                lemma_apply_append(x.drop_first(), y, d.drop_first());
                let bx1 = abase(x.drop_first()) as int;
                assert(d.take(bx).len() == bx);
                assert(d.take(bx).first() == d.first());
                assert(d.take(bx).drop_first() =~= d.drop_first().take(bx1));
                assert(d.skip(bx) =~= d.drop_first().skip(bx1));
                assert(apply_atoms(x, d.take(bx)) == seq![d.first()] + apply_atoms(
                    x.drop_first(),
                    d.drop_first().take(bx1),
                ));
                assert(seq![d.first()] + (apply_atoms(x.drop_first(), d.drop_first().take(bx1))
                    + apply_atoms(y, d.drop_first().skip(bx1))) =~= (seq![d.first()] + apply_atoms(
                    x.drop_first(),
                    d.drop_first().take(bx1),
                )) + apply_atoms(y, d.drop_first().skip(bx1)));
            },
            Atom::Del => {
                assert(abase(x) == 1 + abase(x.drop_first()));
                assert(d.len() > 0);
                lemma_apply_append(x.drop_first(), y, d.drop_first());
                let bx1 = abase(x.drop_first()) as int;
                assert(d.take(bx).len() == bx);
                assert(d.take(bx).first() == d.first());
                assert(d.take(bx).drop_first() =~= d.drop_first().take(bx1));
                assert(d.skip(bx) =~= d.drop_first().skip(bx1));
                assert(apply_atoms(x, d.take(bx)) == apply_atoms(
                    x.drop_first(),
                    d.drop_first().take(bx1),
                ));
            },
        }
    }
}

/// Applying the three homogeneous runs.
pub proof fn lemma_apply_runs(n: nat, t: Seq<char>, d: Seq<char>)
    ensures
        d.len() == n ==> apply_atoms(keeps(n), d) == d,
        d.len() == n ==> apply_atoms(dels(n), d) == Seq::<char>::empty(),
        apply_atoms(ins_atoms(t), Seq::<char>::empty()) == t,
    decreases n + t.len(),
{
    lemma_lens_runs(n, t);
    if d.len() == n && n > 0 {
        assert(keeps(n).first() == Atom::Keep);
        assert(keeps(n).drop_first() =~= keeps((n - 1) as nat));
        assert(dels(n).first() == Atom::Del);
        assert(dels(n).drop_first() =~= dels((n - 1) as nat));
        lemma_apply_runs((n - 1) as nat, t, d.drop_first());
        assert(seq![d.first()] + d.drop_first() =~= d);
    }
    if t.len() > 0 {
        lemma_apply_runs(n, t.drop_first(), d);
        assert(ins_atoms(t).first() == ins_atom(t.first()));
        assert(ins_atoms(t).drop_first() =~= ins_atoms(t.drop_first()));
        assert(apply_atoms(ins_atoms(t), Seq::<char>::empty()) == seq![t.first()] + apply_atoms(
            ins_atoms(t.drop_first()),
            Seq::<char>::empty(),
        ));
        assert(seq![t.first()] + t.drop_first() =~= t);
    }
}

/// Applying retain-delete-insert-retain is splicing.
pub proof fn lemma_apply_splice(o: nat, k: nat, t: Seq<char>, rst: nat, d: Seq<char>)
    requires
        d.len() == o + k + rst,
    ensures
        apply_atoms(((keeps(o) + dels(k)) + ins_atoms(t)) + keeps(rst), d) == (d.take(o as int) + t)
            + d.skip((o + k) as int),
{
    let s1 = keeps(o);
    let s2 = dels(k);
    let s3 = ins_atoms(t);
    let s4 = keeps(rst);
    lemma_lens_runs(o, t);
    lemma_lens_runs(k, t);
    lemma_lens_runs(rst, t);
    lemma_lens_add(s2, s3 + s4);
    lemma_lens_add(s3, s4);
    assert(((s1 + s2) + s3) + s4 =~= s1 + (s2 + (s3 + s4)));
    lemma_apply_append(s1, s2 + (s3 + s4), d);
    let e1 = d.skip(o as int);
    assert(e1.len() == k + rst);
    lemma_apply_append(s2, s3 + s4, e1);
    let e2 = e1.skip(k as int);
    assert(e2.len() == rst);
    lemma_apply_append(s3, s4, e2);
    assert(e2.take(0) =~= Seq::<char>::empty());
    assert(e2.skip(0) =~= e2);
    lemma_apply_runs(o, t, d.take(o as int));
    assert(d.take(o as int).len() == o);
    lemma_apply_runs(k, t, e1.take(k as int));
    assert(e1.take(k as int).len() == k);
    lemma_apply_runs(rst, t, e2);
    assert(e2 =~= d.skip((o + k) as int));
    assert(apply_atoms(s1 + (s2 + (s3 + s4)), d) == d.take(o as int) + (Seq::<char>::empty() + (t
        + e2)));
    assert(d.take(o as int) + (Seq::<char>::empty() + (t + e2)) =~= (d.take(o as int) + t)
        + d.skip((o + k) as int));
}

} // verus!
