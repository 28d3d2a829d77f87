//! Operation algebra: edits as sequences of retain / insert / delete steps.
//!
//! An `Operation` stores run-length steps (`Retain(n)`, `Insert(text)`,
//! `Delete(n)`); its meaning is the expansion into single-character atoms
//! (`Atom`), and every contract speaks of that expansion. Adjacent same-kind
//! steps are merged by the builder purely to keep the wire form small; the
//! atom view is unaffected.

use vstd::prelude::*;

verus! {

/// One single-character step of an operation: keep one character of the
/// source text, insert one character, or delete one character of the source.
#[derive(Clone, Copy, Debug, PartialEq, Eq)]
pub enum Atom {
    Keep,
    Ins(char),
    Del,
}

/// One run-length step of an operation as held and serialized.
#[derive(Clone, Debug, PartialEq, Eq)]
pub enum OpStep {
    Retain(usize),
    Insert(Vec<char>),
    Delete(usize),
}

/// Errors of the algebra itself: operands whose lengths do not line up.
#[derive(Clone, Copy, Debug, PartialEq, Eq, Structural)]
pub enum OtError {
    /// `compose` or `transform` was given operations of incompatible lengths.
    IncompatibleLengths,
    /// `apply` was given text whose length differs from the operation's base.
    LengthMismatch,
}

/// Number of source-text characters an atom sequence consumes.
pub open spec fn abase(s: Seq<Atom>) -> nat
    decreases s.len(),
{
    if s.len() == 0 {
        0
    } else {
        (match s.first() {
            Atom::Keep => 1nat,
            Atom::Ins(_) => 0nat,
            Atom::Del => 1nat,
        }) + abase(s.drop_first())
    }
}

/// Number of target-text characters an atom sequence produces.
pub open spec fn atarget(s: Seq<Atom>) -> nat
    decreases s.len(),
{
    if s.len() == 0 {
        0
    } else {
        (match s.first() {
            Atom::Keep => 1nat,
            Atom::Ins(_) => 1nat,
            Atom::Del => 0nat,
        }) + atarget(s.drop_first())
    }
}

/// An operation is a no-op exactly when every atom keeps its character.
pub open spec fn all_keep(s: Seq<Atom>) -> bool {
    forall|i: int| 0 <= i < s.len() ==> s[i] == Atom::Keep
}

/// `n` retain atoms: the identity operation on text of length `n`.
pub open spec fn keeps(n: nat) -> Seq<Atom> {
    Seq::new(n, |i: int| Atom::Keep)
}

/// `n` delete atoms.
pub open spec fn dels(n: nat) -> Seq<Atom> {
    Seq::new(n, |i: int| Atom::Del)
}

/// The insert atom for one character.
pub open spec fn ins_atom(c: char) -> Atom {
    Atom::Ins(c)
}

/// Insert atoms for the text `t`.
pub open spec fn ins_atoms(t: Seq<char>) -> Seq<Atom>
    decreases t.len(),
{
    if t.len() == 0 {
        Seq::empty()
    } else {
        seq![ins_atom(t.first())] + ins_atoms(t.drop_first())
    }
}

/// Expansion of one run-length step into atoms.
pub open spec fn atoms_of_step(s: OpStep) -> Seq<Atom> {
    match s {
        OpStep::Retain(n) => keeps(n as nat),
        OpStep::Insert(t) => ins_atoms(t@),
        OpStep::Delete(n) => dels(n as nat),
    }
}

/// Expansion of a step sequence into atoms.
pub open spec fn atoms_of_steps(ss: Seq<OpStep>) -> Seq<Atom>
    decreases ss.len(),
{
    if ss.len() == 0 {
        Seq::empty()
    } else {
        atoms_of_step(ss.first()) + atoms_of_steps(ss.drop_first())
    }
}

/// A run-length step carries at least one atom.
pub open spec fn step_positive(s: OpStep) -> bool {
    match s {
        OpStep::Retain(n) => n > 0,
        OpStep::Insert(t) => t@.len() > 0,
        OpStep::Delete(n) => n > 0,
    }
}

/// The result of applying an atom sequence to text. Meaningful only when
/// `d.len() == abase(ops)`; total otherwise so that it can be spoken of
/// unconditionally.
pub open spec fn apply_atoms(ops: Seq<Atom>, d: Seq<char>) -> Seq<char>
    decreases ops.len(),
{
    if ops.len() == 0 {
        Seq::empty()
    } else {
        match ops.first() {
            Atom::Ins(c) => seq![c] + apply_atoms(ops.drop_first(), d),
            Atom::Keep => if d.len() > 0 {
                seq![d.first()] + apply_atoms(ops.drop_first(), d.drop_first())
            } else {
                Seq::empty()
            },
            Atom::Del => if d.len() > 0 {
                apply_atoms(ops.drop_first(), d.drop_first())
            } else {
                Seq::empty()
            },
        }
    }
}

/// Sequential composition of two atom sequences: the operation with the same
/// effect as applying `a`, then `b`. Meaningful only when
/// `atarget(a) == abase(b)`. Deletions of `a` are emitted before insertions
/// of `b` at the same point.
pub open spec fn compose_atoms(a: Seq<Atom>, b: Seq<Atom>) -> Seq<Atom>
    decreases a.len() + b.len(),
{
    if a.len() > 0 && a.first() == Atom::Del {
        seq![Atom::Del] + compose_atoms(a.drop_first(), b)
    } else if b.len() > 0 && b.first() is Ins {
        seq![b.first()] + compose_atoms(a, b.drop_first())
    } else if a.len() > 0 && b.len() > 0 {
        match (a.first(), b.first()) {
            (Atom::Keep, Atom::Keep) => seq![Atom::Keep] + compose_atoms(
                a.drop_first(),
                b.drop_first(),
            ),
            (Atom::Keep, Atom::Del) => seq![Atom::Del] + compose_atoms(
                a.drop_first(),
                b.drop_first(),
            ),
            (Atom::Ins(_), Atom::Keep) => seq![a.first()] + compose_atoms(
                a.drop_first(),
                b.drop_first(),
            ),
            (Atom::Ins(_), Atom::Del) => compose_atoms(a.drop_first(), b.drop_first()),
            _ => Seq::empty(),
        }
    } else {
        Seq::empty()
    }
}

/// Transformation of two concurrent atom sequences over the same base text:
/// `(a', b')` such that applying `a` then `b'` and applying `b` then `a'`
/// reach the same text. Meaningful only when `abase(a) == abase(b)`.
/// When both insert at the same point, `a`'s insertion goes first: the fixed
/// tie-break every party must share.
pub open spec fn transform_atoms(a: Seq<Atom>, b: Seq<Atom>) -> (Seq<Atom>, Seq<Atom>)
    decreases a.len() + b.len(),
{
    if a.len() > 0 && a.first() is Ins {
        let (x, y) = transform_atoms(a.drop_first(), b);
        (seq![a.first()] + x, seq![Atom::Keep] + y)
    } else if b.len() > 0 && b.first() is Ins {
        let (x, y) = transform_atoms(a, b.drop_first());
        (seq![Atom::Keep] + x, seq![b.first()] + y)
    } else if a.len() > 0 && b.len() > 0 {
        let (x, y) = transform_atoms(a.drop_first(), b.drop_first());
        match (a.first(), b.first()) {
            (Atom::Keep, Atom::Keep) => (seq![Atom::Keep] + x, seq![Atom::Keep] + y),
            (Atom::Keep, Atom::Del) => (x, seq![Atom::Del] + y),
            (Atom::Del, Atom::Keep) => (seq![Atom::Del] + x, y),
            (Atom::Del, Atom::Del) => (x, y),
            _ => (Seq::empty(), Seq::empty()),
        }
    } else {
        (Seq::empty(), Seq::empty())
    }
}

/// `abase` and `atarget` of a single atom.
pub proof fn lemma_lens_one(x: Atom)
    ensures
        abase(seq![x]) == (match x {
            Atom::Keep => 1nat,
            Atom::Ins(_) => 0nat,
            Atom::Del => 1nat,
        }),
        atarget(seq![x]) == (match x {
            Atom::Keep => 1nat,
            Atom::Ins(_) => 1nat,
            Atom::Del => 0nat,
        }),
{
    assert(seq![x].len() == 1);
    assert(seq![x].first() == x);
    assert(seq![x].drop_first() =~= Seq::<Atom>::empty());
    assert(abase(Seq::<Atom>::empty()) == 0);
    assert(atarget(Seq::<Atom>::empty()) == 0);
}

/// `abase` and `atarget` distribute over concatenation.
pub proof fn lemma_lens_add(x: Seq<Atom>, y: Seq<Atom>)
    ensures
        abase(x + y) == abase(x) + abase(y),
        atarget(x + y) == atarget(x) + atarget(y),
    decreases x.len(),
{
    if x.len() == 0 {
        assert(x + y =~= y);
    } else {
        assert((x + y).drop_first() =~= x.drop_first() + y);
        lemma_lens_add(x.drop_first(), y);
    }
}

/// Each length is at most the number of atoms.
pub proof fn lemma_lens_le_len(s: Seq<Atom>)
    ensures
        abase(s) <= s.len(),
        atarget(s) <= s.len(),
    decreases s.len(),
{
    if s.len() > 0 {
        lemma_lens_le_len(s.drop_first());
    }
}

/// Lengths of the three homogeneous atom runs.
pub proof fn lemma_lens_runs(n: nat, t: Seq<char>)
    ensures
        abase(keeps(n)) == n,
        atarget(keeps(n)) == n,
        abase(dels(n)) == n,
        atarget(dels(n)) == 0,
        abase(ins_atoms(t)) == 0,
        atarget(ins_atoms(t)) == t.len(),
    decreases n + t.len(),
{
    if n > 0 {
        assert(keeps(n).drop_first() =~= keeps((n - 1) as nat));
        assert(dels(n).drop_first() =~= dels((n - 1) as nat));
        lemma_lens_runs((n - 1) as nat, t);
    }
    if t.len() > 0 {
        lemma_lens_runs(n, t.drop_first());
        lemma_lens_one(Atom::Ins(t.first()));
        lemma_lens_add(seq![ins_atom(t.first())], ins_atoms(t.drop_first()));
    }
}

/// Insert atoms of text extended by one character.
pub proof fn lemma_ins_atoms_push(t: Seq<char>, c: char)
    ensures
        ins_atoms(t.push(c)) == ins_atoms(t) + seq![ins_atom(c)],
    decreases t.len(),
{
    if t.len() == 0 {
        assert(t.push(c).len() == 1);
        assert(t.push(c).first() == c);
        assert(t.push(c).drop_first() =~= Seq::<char>::empty());
        assert(ins_atoms(Seq::<char>::empty()) =~= Seq::<Atom>::empty());
        assert(seq![ins_atom(c)] + Seq::<Atom>::empty() =~= seq![ins_atom(c)]);
        assert(ins_atoms(t) =~= Seq::<Atom>::empty());
        assert(Seq::<Atom>::empty() + seq![ins_atom(c)] =~= seq![ins_atom(c)]);
    } else {
        assert(t.push(c).first() == t.first());
        assert(t.push(c).drop_first() =~= t.drop_first().push(c));
        lemma_ins_atoms_push(t.drop_first(), c);
        assert(seq![ins_atom(t.first())] + (ins_atoms(t.drop_first()) + seq![ins_atom(c)]) =~= (
        seq![ins_atom(t.first())] + ins_atoms(t.drop_first())) + seq![ins_atom(c)]);
    }
}

/// Step-sequence expansion distributes over concatenation.
pub proof fn lemma_atoms_of_steps_add(x: Seq<OpStep>, y: Seq<OpStep>)
    ensures
        atoms_of_steps(x + y) == atoms_of_steps(x) + atoms_of_steps(y),
    decreases x.len(),
{
    if x.len() == 0 {
        assert(x + y =~= y);
        assert(Seq::<Atom>::empty() + atoms_of_steps(y) =~= atoms_of_steps(y));
    } else {
        assert((x + y).drop_first() =~= x.drop_first() + y);
        lemma_atoms_of_steps_add(x.drop_first(), y);
        assert(atoms_of_step(x.first()) + (atoms_of_steps(x.drop_first()) + atoms_of_steps(y))
            =~= (atoms_of_step(x.first()) + atoms_of_steps(x.drop_first())) + atoms_of_steps(y));
    }
}

/// Index characterization of `ins_atoms`.
pub proof fn lemma_ins_atoms_index(t: Seq<char>)
    ensures
        ins_atoms(t).len() == t.len(),
        forall|i: int| 0 <= i < t.len() ==> ins_atoms(t)[i] == ins_atom(t[i]),
    decreases t.len(),
{
    if t.len() > 0 {
        lemma_ins_atoms_index(t.drop_first());
        assert forall|i: int| 0 <= i < t.len() implies ins_atoms(t)[i] == ins_atom(t[i]) by {
            if i > 0 {
                assert(ins_atoms(t)[i] == ins_atoms(t.drop_first())[i - 1]);
                assert(t.drop_first()[i - 1] == t[i]);
            }
        }
    }
}

/// A no-op concatenation is a pair of no-ops.
pub proof fn lemma_all_keep_add(x: Seq<Atom>, y: Seq<Atom>)
    ensures
        all_keep(x + y) <==> (all_keep(x) && all_keep(y)),
{
    if all_keep(x + y) {
        assert forall|i: int| 0 <= i < x.len() implies x[i] == Atom::Keep by {
            assert((x + y)[i] == x[i]);
        }
        assert forall|i: int| 0 <= i < y.len() implies y[i] == Atom::Keep by {
            assert((x + y)[x.len() + i] == y[i]);
        }
    }
    if all_keep(x) && all_keep(y) {
        assert forall|i: int| 0 <= i < (x + y).len() implies (x + y)[i] == Atom::Keep by {
            if i < x.len() {
                assert((x + y)[i] == x[i]);
            } else {
                assert((x + y)[i] == y[i - x.len()]);
            }
        }
    }
}

/// A positive step is a no-op exactly when it is a retain step.
pub proof fn lemma_step_all_keep(s: OpStep)
    requires
        step_positive(s),
    ensures
        all_keep(atoms_of_step(s)) <==> (s is Retain),
{
    match s {
        OpStep::Retain(n) => {},
        OpStep::Insert(t) => {
            lemma_ins_atoms_index(t@);
            assert(atoms_of_step(s)[0] == ins_atom(t@[0]));
            assert(atoms_of_step(s)[0] != Atom::Keep);
        },
        OpStep::Delete(n) => {
            assert(atoms_of_step(s)[0] == Atom::Del);
        },
    }
}

/// Expansion of a step sequence extended by one step.
pub proof fn lemma_atoms_of_steps_push(ss: Seq<OpStep>, s: OpStep)
    ensures
        atoms_of_steps(ss.push(s)) == atoms_of_steps(ss) + atoms_of_step(s),
{
    assert(ss.push(s) =~= ss + seq![s]);
    lemma_atoms_of_steps_add(ss, seq![s]);
    assert(seq![s].drop_first() =~= Seq::<OpStep>::empty());
    assert(atoms_of_steps(Seq::<OpStep>::empty()) =~= Seq::<Atom>::empty());
    assert(atoms_of_step(s) + Seq::<Atom>::empty() =~= atoms_of_step(s));
}

/// An edit: a sequence of run-length steps, built through the appending
/// methods, composed and transformed through the algebra. The contracts
/// assume `wf`; every constructor and method here establishes it, and the
/// serializing caller that fills `steps` directly must keep each step
/// non-empty and the two lengths within the machine.
#[derive(Clone, Debug, PartialEq, Eq)]
pub struct Operation {
    pub steps: Vec<OpStep>,
}

impl Operation {
    /// The semantic view: the operation expanded into atoms.
    pub open spec fn atoms(self) -> Seq<Atom> {
        atoms_of_steps(self.steps@)
    }

    /// Well-formed: every step is non-empty, and both lengths fit the
    /// machine.
    pub open spec fn wf(self) -> bool {
        &&& forall|i: int| 0 <= i < self.steps@.len() ==> step_positive(#[trigger] self.steps@[i])
        &&& abase(self.atoms()) <= usize::MAX
        &&& atarget(self.atoms()) <= usize::MAX
    }

    /// The empty operation: applies to the empty text, produces the empty
    /// text.
    pub fn new() -> (r: Operation)
        ensures
            r.wf(),
            r.atoms() == Seq::<Atom>::empty(),
    {
        Operation { steps: Vec::new() }
    }

    /// The pure-retain no-op on text of length `n`.
    pub fn noop(n: usize) -> (r: Operation)
        ensures
            r.wf(),
            r.atoms() == keeps(n as nat),
    {
        let mut op = Operation::new();
        op.retain(n);
        proof {
            assert(Seq::<Atom>::empty() + keeps(n as nat) =~= keeps(n as nat));
        }
        op
    }

    /// The number of source-text characters this operation consumes.
    pub fn base_len(&self) -> (r: usize)
        requires
            self.wf(),
        ensures
            r == abase(self.atoms()),
    {
        let mut acc: usize = 0;
        let mut i: usize = 0;
        proof {
            assert(self.steps@.take(0) =~= Seq::<OpStep>::empty());
            assert(atoms_of_steps(Seq::<OpStep>::empty()) =~= Seq::<Atom>::empty());
            assert(abase(Seq::<Atom>::empty()) == 0);
        }
        while i < self.steps.len()
            invariant
                i <= self.steps@.len(),
                self.wf(),
                acc == abase(atoms_of_steps(self.steps@.take(i as int))),
            decreases self.steps@.len() - i,
        {
            let ghost pre = self.steps@.take(i as int);
            let sb: usize = match &self.steps[i] {
                OpStep::Retain(n) => *n,
                OpStep::Insert(_) => 0,
                OpStep::Delete(n) => *n,
            };
            proof {
                assert(self.steps@.take(i + 1) =~= pre.push(self.steps@[i as int]));
                lemma_atoms_of_steps_push(pre, self.steps@[i as int]);
                lemma_lens_add(atoms_of_steps(pre), atoms_of_step(self.steps@[i as int]));
                match self.steps@[i as int] {
                    OpStep::Retain(n) => lemma_lens_runs(n as nat, Seq::<char>::empty()),
                    OpStep::Insert(t) => lemma_lens_runs(0, t@),
                    OpStep::Delete(n) => lemma_lens_runs(n as nat, Seq::<char>::empty()),
                }
                assert(self.steps@ =~= self.steps@.take(i + 1) + self.steps@.skip(i + 1));
                lemma_atoms_of_steps_add(self.steps@.take(i + 1), self.steps@.skip(i + 1));
                lemma_lens_add(
                    atoms_of_steps(self.steps@.take(i + 1)),
                    atoms_of_steps(self.steps@.skip(i + 1)),
                );
            }
            acc = acc + sb;
            i = i + 1;
        }
        proof {
            assert(self.steps@.take(self.steps@.len() as int) =~= self.steps@);
        }
        acc
    }

    /// The number of target-text characters this operation produces.
    pub fn target_len(&self) -> (r: usize)
        requires
            self.wf(),
        ensures
            r == atarget(self.atoms()),
    {
        let mut acc: usize = 0;
        let mut i: usize = 0;
        proof {
            assert(self.steps@.take(0) =~= Seq::<OpStep>::empty());
            assert(atoms_of_steps(Seq::<OpStep>::empty()) =~= Seq::<Atom>::empty());
            assert(atarget(Seq::<Atom>::empty()) == 0);
        }
        while i < self.steps.len()
            invariant
                i <= self.steps@.len(),
                self.wf(),
                acc == atarget(atoms_of_steps(self.steps@.take(i as int))),
            decreases self.steps@.len() - i,
        {
            let ghost pre = self.steps@.take(i as int);
            let st: usize = match &self.steps[i] {
                OpStep::Retain(n) => *n,
                OpStep::Insert(t) => t.len(),
                OpStep::Delete(_) => 0,
            };
            proof {
                assert(self.steps@.take(i + 1) =~= pre.push(self.steps@[i as int]));
                lemma_atoms_of_steps_push(pre, self.steps@[i as int]);
                lemma_lens_add(atoms_of_steps(pre), atoms_of_step(self.steps@[i as int]));
                match self.steps@[i as int] {
                    OpStep::Retain(n) => lemma_lens_runs(n as nat, Seq::<char>::empty()),
                    OpStep::Insert(t) => lemma_lens_runs(0, t@),
                    OpStep::Delete(n) => lemma_lens_runs(n as nat, Seq::<char>::empty()),
                }
                assert(self.steps@ =~= self.steps@.take(i + 1) + self.steps@.skip(i + 1));
                lemma_atoms_of_steps_add(self.steps@.take(i + 1), self.steps@.skip(i + 1));
                lemma_lens_add(
                    atoms_of_steps(self.steps@.take(i + 1)),
                    atoms_of_steps(self.steps@.skip(i + 1)),
                );
            }
            acc = acc + st;
            i = i + 1;
        }
        proof {
            assert(self.steps@.take(self.steps@.len() as int) =~= self.steps@);
        }
        acc
    }

    /// Whether this operation leaves every character unchanged.
    pub fn is_noop(&self) -> (r: bool)
        requires
            self.wf(),
        ensures
            r == all_keep(self.atoms()),
    {
        let mut i: usize = 0;
        proof {
            assert(self.steps@.take(0) =~= Seq::<OpStep>::empty());
            assert(atoms_of_steps(Seq::<OpStep>::empty()) =~= Seq::<Atom>::empty());
        }
        while i < self.steps.len()
            invariant
                i <= self.steps@.len(),
                self.wf(),
                all_keep(atoms_of_steps(self.steps@.take(i as int))),
            decreases self.steps@.len() - i,
        {
            let ghost pre = self.steps@.take(i as int);
            let retain_step: bool = match &self.steps[i] {
                OpStep::Retain(_) => true,
                _ => false,
            };
            proof {
                assert(self.steps@.take(i + 1) =~= pre.push(self.steps@[i as int]));
                lemma_atoms_of_steps_push(pre, self.steps@[i as int]);
                lemma_all_keep_add(atoms_of_steps(pre), atoms_of_step(self.steps@[i as int]));
                lemma_step_all_keep(self.steps@[i as int]);
                assert(self.steps@ =~= self.steps@.take(i + 1) + self.steps@.skip(i + 1));
                lemma_atoms_of_steps_add(self.steps@.take(i + 1), self.steps@.skip(i + 1));
                lemma_all_keep_add(
                    atoms_of_steps(self.steps@.take(i + 1)),
                    atoms_of_steps(self.steps@.skip(i + 1)),
                );
            }
            if !retain_step {
                return false;
            }
            i = i + 1;
        }
        proof {
            assert(self.steps@.take(self.steps@.len() as int) =~= self.steps@);
        }
        true
    }

    /// Sequential composition: the operation with the effect of `self`
    /// followed by `other`. Defined exactly when `other` starts from the
    /// text `self` produces.
    pub fn compose(&self, other: &Operation) -> (r: Result<Operation, OtError>)
        requires
            self.wf(),
            other.wf(),
        ensures
            r is Ok <==> atarget(self.atoms()) == abase(other.atoms()),
            (r matches Ok(c) ==> c.wf() && c.atoms() == compose_atoms(self.atoms(), other.atoms())),
            (r matches Err(e) ==> e == OtError::IncompatibleLengths),
    {
        if self.target_len() != other.base_len() {
            return Err(OtError::IncompatibleLengths);
        }
        let a = self.expand();
        let b = other.expand();
        let mut out: Vec<Atom> = Vec::new();
        proof {
            assert(a@.skip(0) =~= a@);
            assert(b@.skip(0) =~= b@);
        }
        compose_atoms_rec(&a, 0, &b, 0, &mut out);
        proof {
            assert(Seq::<Atom>::empty() + compose_atoms(a@, b@) =~= compose_atoms(a@, b@));
        }
        Ok(collapse(&out))
    }

    /// Transformation of two concurrent operations over the same base text.
    /// Returns `(self_rebased, other_rebased)`: `self_rebased` applies after
    /// `other`, `other_rebased` after `self`, and both orders converge. When
    /// both sides insert at the same point, `self`'s insertion goes first.
    pub fn transform(&self, other: &Operation) -> (r: Result<(Operation, Operation), OtError>)
        requires
            self.wf(),
            other.wf(),
        ensures
            r is Ok <==> abase(self.atoms()) == abase(other.atoms()),
            (r matches Ok(p) ==> p.0.wf() && p.1.wf() && p.0.atoms() == transform_atoms(
                self.atoms(),
                other.atoms(),
            ).0 && p.1.atoms() == transform_atoms(self.atoms(), other.atoms()).1),
            (r matches Err(e) ==> e == OtError::IncompatibleLengths),
    {
        if self.base_len() != other.base_len() {
            return Err(OtError::IncompatibleLengths);
        }
        let a = self.expand();
        let b = other.expand();
        let mut xa: Vec<Atom> = Vec::new();
        let mut xb: Vec<Atom> = Vec::new();
        proof {
            assert(a@.skip(0) =~= a@);
            assert(b@.skip(0) =~= b@);
        }
        transform_atoms_rec(&a, 0, &b, 0, &mut xa, &mut xb);
        proof {
            assert(Seq::<Atom>::empty() + transform_atoms(a@, b@).0 =~= transform_atoms(
                a@,
                b@,
            ).0);
            assert(Seq::<Atom>::empty() + transform_atoms(a@, b@).1 =~= transform_atoms(
                a@,
                b@,
            ).1);
        }
        Ok((collapse(&xa), collapse(&xb)))
    }

    /// Apply this operation to text of exactly its base length.
    pub fn apply(&self, text: &Vec<char>) -> (r: Result<Vec<char>, OtError>)
        requires
            self.wf(),
        ensures
            r is Ok <==> text@.len() == abase(self.atoms()),
            (r matches Ok(t) ==> t@ == apply_atoms(self.atoms(), text@)),
            (r matches Err(e) ==> e == OtError::LengthMismatch),
    {
        if text.len() != self.base_len() {
            return Err(OtError::LengthMismatch);
        }
        let a = self.expand();
        let mut out: Vec<char> = Vec::new();
        proof {
            assert(a@.skip(0) =~= a@);
            assert(text@.skip(0) =~= text@);
        }
        apply_atoms_rec(&a, 0, text, 0, &mut out);
        proof {
            assert(Seq::<char>::empty() + apply_atoms(a@, text@) =~= apply_atoms(a@, text@));
        }
        Ok(out)
    }

    /// A well-formed copy with the same atoms.
    pub fn duplicate(&self) -> (r: Operation)
        requires
            self.wf(),
        ensures
            r.wf(),
            r.atoms() == self.atoms(),
    {
        let v = self.expand();
        collapse(&v)
    }

    /// Expand the run-length steps into one atom per character.
    pub(crate) fn expand(&self) -> (r: Vec<Atom>)
        requires
            self.wf(),
        ensures
            r@ == self.atoms(),
    {
        let mut out: Vec<Atom> = Vec::new();
        let mut i: usize = 0;
        proof {
            assert(self.steps@.take(0) =~= Seq::<OpStep>::empty());
            assert(atoms_of_steps(Seq::<OpStep>::empty()) =~= Seq::<Atom>::empty());
        }
        while i < self.steps.len()
            invariant
                i <= self.steps@.len(),
                self.wf(),
                out@ == atoms_of_steps(self.steps@.take(i as int)),
            decreases self.steps@.len() - i,
        {
            let ghost pre = atoms_of_steps(self.steps@.take(i as int));
            match &self.steps[i] {
                OpStep::Retain(n) => {
                    let mut j: usize = 0;
                    proof {
                        assert(pre + keeps(0) =~= pre);
                    }
                    while j < *n
                        invariant
                            j <= *n,
                            out@ == pre + keeps(j as nat),
                        decreases *n - j,
                    {
                        out.push(Atom::Keep);
                        proof {
                            assert((pre + keeps(j as nat)).push(Atom::Keep) =~= pre + keeps(
                                (j + 1) as nat,
                            ));
                        }
                        j = j + 1;
                    }
                },
                OpStep::Insert(t) => {
                    let mut j: usize = 0;
                    proof {
                        assert(t@.take(0).len() == 0);
                        assert(ins_atoms(t@.take(0)) =~= Seq::<Atom>::empty());
                        assert(pre + Seq::<Atom>::empty() =~= pre);
                    }
                    while j < t.len()
                        invariant
                            j <= t@.len(),
                            out@ == pre + ins_atoms(t@.take(j as int)),
                        decreases t@.len() - j,
                    {
                        out.push(Atom::Ins(t[j]));
                        proof {
                            assert(t@.take(j + 1) =~= t@.take(j as int).push(t@[j as int]));
                            lemma_ins_atoms_push(t@.take(j as int), t@[j as int]);
                            assert((pre + ins_atoms(t@.take(j as int))).push(ins_atom(t@[j as int]))
                                =~= pre + (ins_atoms(t@.take(j as int)) + seq![
                                ins_atom(t@[j as int]),
                            ]));
                        }
                        j = j + 1;
                    }
                    proof {
                        assert(t@.take(t@.len() as int) =~= t@);
                    }
                },
                OpStep::Delete(n) => {
                    let mut j: usize = 0;
                    proof {
                        assert(pre + dels(0) =~= pre);
                    }
                    while j < *n
                        invariant
                            j <= *n,
                            out@ == pre + dels(j as nat),
                        decreases *n - j,
                    {
                        out.push(Atom::Del);
                        proof {
                            assert((pre + dels(j as nat)).push(Atom::Del) =~= pre + dels(
                                (j + 1) as nat,
                            ));
                        }
                        j = j + 1;
                    }
                },
            }
            proof {
                assert(self.steps@.take(i + 1) =~= self.steps@.take(i as int).push(
                    self.steps@[i as int],
                ));
                lemma_atoms_of_steps_push(self.steps@.take(i as int), self.steps@[i as int]);
            }
            i = i + 1;
        }
        proof {
            assert(self.steps@.take(self.steps@.len() as int) =~= self.steps@);
        }
        out
    }

    /// Append `n` retained characters, merging into a trailing retain step.
    pub fn retain(&mut self, n: usize)
        requires
            old(self).wf(),
            abase(old(self).atoms()) + n <= usize::MAX,
            atarget(old(self).atoms()) + n <= usize::MAX,
        ensures
            final(self).wf(),
            final(self).atoms() == old(self).atoms() + keeps(n as nat),
    {
        proof {
            lemma_lens_runs(n as nat, Seq::<char>::empty());
            lemma_lens_add(old(self).atoms(), keeps(n as nat));
        }
        if n == 0 {
            proof {
                assert(old(self).atoms() + keeps(0) =~= old(self).atoms());
            }
            return;
        }
        let l = self.steps.len();
        let mut mergeable: Option<usize> = None;
        if l > 0 {
            match &self.steps[l - 1] {
                OpStep::Retain(m) => {
                    if *m <= usize::MAX - n {
                        mergeable = Some(*m);
                    }
                },
                _ => {},
            }
        }
        match mergeable {
            Some(m) => {
                let ghost old_steps = self.steps@;
                let _ = self.steps.pop();
                self.steps.push(OpStep::Retain(m + n));
                proof {
                    assert(old_steps =~= old_steps.drop_last().push(old_steps.last()));
                    lemma_atoms_of_steps_push(old_steps.drop_last(), old_steps.last());
                    lemma_atoms_of_steps_push(old_steps.drop_last(), OpStep::Retain((m + n) as usize));
                    assert(keeps((m + n) as nat) =~= keeps(m as nat) + keeps(n as nat));
                    assert(atoms_of_steps(old_steps.drop_last()) + (keeps(m as nat) + keeps(n as nat))
                        =~= (atoms_of_steps(old_steps.drop_last()) + keeps(m as nat)) + keeps(n as nat));
                    assert(forall|i: int| 0 <= i < self.steps@.len()
                        ==> step_positive(#[trigger] self.steps@[i])) by {
                        assert(forall|i: int| 0 <= i < self.steps@.len() - 1
                            ==> self.steps@[i] == old_steps[i]);
                    }
                }
            },
            None => {
                self.steps.push(OpStep::Retain(n));
                proof {
                    lemma_atoms_of_steps_push(old(self).steps@, OpStep::Retain(n));
                    assert(forall|i: int| 0 <= i < self.steps@.len()
                        ==> step_positive(#[trigger] self.steps@[i])) by {
                        assert(forall|i: int| 0 <= i < self.steps@.len() - 1
                            ==> self.steps@[i] == old(self).steps@[i]);
                    }
                }
            },
        }
    }

    /// Append `n` deleted characters, merging into a trailing delete step.
    pub fn delete(&mut self, n: usize)
        requires
            old(self).wf(),
            abase(old(self).atoms()) + n <= usize::MAX,
        ensures
            final(self).wf(),
            final(self).atoms() == old(self).atoms() + dels(n as nat),
    {
        proof {
            lemma_lens_runs(n as nat, Seq::<char>::empty());
            lemma_lens_add(old(self).atoms(), dels(n as nat));
        }
        if n == 0 {
            proof {
                assert(old(self).atoms() + dels(0) =~= old(self).atoms());
            }
            return;
        }
        let l = self.steps.len();
        let mut mergeable: Option<usize> = None;
        if l > 0 {
            match &self.steps[l - 1] {
                OpStep::Delete(m) => {
                    if *m <= usize::MAX - n {
                        mergeable = Some(*m);
                    }
                },
                _ => {},
            }
        }
        match mergeable {
            Some(m) => {
                let ghost old_steps = self.steps@;
                let _ = self.steps.pop();
                self.steps.push(OpStep::Delete(m + n));
                proof {
                    assert(old_steps =~= old_steps.drop_last().push(old_steps.last()));
                    lemma_atoms_of_steps_push(old_steps.drop_last(), old_steps.last());
                    lemma_atoms_of_steps_push(old_steps.drop_last(), OpStep::Delete((m + n) as usize));
                    assert(dels((m + n) as nat) =~= dels(m as nat) + dels(n as nat));
                    assert(atoms_of_steps(old_steps.drop_last()) + (dels(m as nat) + dels(n as nat))
                        =~= (atoms_of_steps(old_steps.drop_last()) + dels(m as nat)) + dels(n as nat));
                    assert(forall|i: int| 0 <= i < self.steps@.len()
                        ==> step_positive(#[trigger] self.steps@[i])) by {
                        assert(forall|i: int| 0 <= i < self.steps@.len() - 1
                            ==> self.steps@[i] == old_steps[i]);
                    }
                }
            },
            None => {
                self.steps.push(OpStep::Delete(n));
                proof {
                    lemma_atoms_of_steps_push(old(self).steps@, OpStep::Delete(n));
                    assert(forall|i: int| 0 <= i < self.steps@.len()
                        ==> step_positive(#[trigger] self.steps@[i])) by {
                        assert(forall|i: int| 0 <= i < self.steps@.len() - 1
                            ==> self.steps@[i] == old(self).steps@[i]);
                    }
                }
            },
        }
    }

    /// Append one inserted character, merging into a trailing insert step.
    pub fn insert_char(&mut self, c: char)
        requires
            old(self).wf(),
            atarget(old(self).atoms()) + 1 <= usize::MAX,
        ensures
            final(self).wf(),
            final(self).atoms() == old(self).atoms() + seq![ins_atom(c)],
    {
        proof {
            lemma_lens_one(Atom::Ins(c));
            lemma_lens_add(old(self).atoms(), seq![ins_atom(c)]);
        }
        let l = self.steps.len();
        let mut merge: bool = false;
        if l > 0 {
            match &self.steps[l - 1] {
                OpStep::Insert(_) => {
                    merge = true;
                },
                _ => {},
            }
        }
        if merge {
            let ghost old_steps = self.steps@;
            let last = self.steps.pop();
            match last {
                Some(OpStep::Insert(mut t)) => {
                    let ghost t0 = t@;
                    t.push(c);
                    self.steps.push(OpStep::Insert(t));
                    proof {
                        assert(old_steps =~= old_steps.drop_last().push(old_steps.last()));
                        lemma_atoms_of_steps_push(old_steps.drop_last(), old_steps.last());
                        lemma_atoms_of_steps_push(old_steps.drop_last(), self.steps@.last());
                        lemma_ins_atoms_push(t0, c);
                        assert(atoms_of_steps(old_steps.drop_last()) + (ins_atoms(t0) + seq![
                            Atom::Ins(c),
                        ]) =~= (atoms_of_steps(old_steps.drop_last()) + ins_atoms(t0)) + seq![
                            Atom::Ins(c),
                        ]);
                        assert(forall|i: int| 0 <= i < self.steps@.len()
                            ==> step_positive(#[trigger] self.steps@[i])) by {
                            assert(forall|i: int| 0 <= i < self.steps@.len() - 1
                                ==> self.steps@[i] == old_steps[i]);
                        }
                    }
                },
                _ => {
                    proof {
                        assert(false);
                    }
                },
            }
        } else {
            let mut t: Vec<char> = Vec::new();
            t.push(c);
            self.steps.push(OpStep::Insert(t));
            proof {
                lemma_atoms_of_steps_push(old(self).steps@, self.steps@.last());
                lemma_ins_atoms_push(Seq::<char>::empty(), c);
                assert(Seq::<char>::empty().push(c) =~= seq![c]);
                assert(ins_atoms(Seq::<char>::empty()) =~= Seq::<Atom>::empty());
                assert(Seq::<Atom>::empty() + seq![ins_atom(c)] =~= seq![ins_atom(c)]);
                assert(forall|i: int| 0 <= i < self.steps@.len()
                    ==> step_positive(#[trigger] self.steps@[i])) by {
                    assert(forall|i: int| 0 <= i < self.steps@.len() - 1
                        ==> self.steps@[i] == old(self).steps@[i]);
                }
            }
        }
    }

    /// Append the inserted text `t`.
    pub fn insert(&mut self, t: &Vec<char>)
        requires
            old(self).wf(),
            atarget(old(self).atoms()) + t@.len() <= usize::MAX,
        ensures
            final(self).wf(),
            final(self).atoms() == old(self).atoms() + ins_atoms(t@),
    {
        let ghost base = old(self).atoms();
        let mut j: usize = 0;
        proof {
            assert(t@.take(0).len() == 0);
            assert(ins_atoms(t@.take(0)) =~= Seq::<Atom>::empty());
            assert(base + Seq::<Atom>::empty() =~= base);
        }
        while j < t.len()
            invariant
                j <= t@.len(),
                self.wf(),
                self.atoms() == base + ins_atoms(t@.take(j as int)),
                atarget(base) + t@.len() <= usize::MAX,
            decreases t@.len() - j,
        {
            proof {
                lemma_lens_add(base, ins_atoms(t@.take(j as int)));
                lemma_lens_runs(0, t@.take(j as int));
            }
            self.insert_char(t[j]);
            proof {
                assert(t@.take(j + 1) =~= t@.take(j as int).push(t@[j as int]));
                lemma_ins_atoms_push(t@.take(j as int), t@[j as int]);
                assert(base + (ins_atoms(t@.take(j as int)) + seq![ins_atom(t@[j as int])]) =~= (
                base + ins_atoms(t@.take(j as int))) + seq![ins_atom(t@[j as int])]);
            }
            j = j + 1;
        }
        proof {
            assert(t@.take(t@.len() as int) =~= t@);
        }
    }
}

/// Rebuild a run-length operation from its atoms.
fn collapse(v: &Vec<Atom>) -> (r: Operation)
    ensures
        r.wf(),
        r.atoms() == v@,
{
    let n = v.len();
    proof {
        assert(v@.len() == n);
    }
    let mut op = Operation::new();
    let mut i: usize = 0;
    proof {
        assert(v@.take(0) =~= Seq::<Atom>::empty());
    }
    while i < v.len()
        invariant
            i <= v@.len(),
            v@.len() <= usize::MAX,
            op.wf(),
            op.atoms() == v@.take(i as int),
        decreases v@.len() - i,
    {
        proof {
            assert(v@.take(i + 1) =~= v@.take(i as int) + seq![v@[i as int]]);
            lemma_lens_add(v@.take(i as int), seq![v@[i as int]]);
            lemma_lens_one(v@[i as int]);
            lemma_lens_le_len(v@.take(i + 1));
        }
        match v[i] {
            Atom::Keep => {
                op.retain(1);
                proof {
                    assert(keeps(1) =~= seq![Atom::Keep]);
                }
            },
            Atom::Ins(c) => {
                op.insert_char(c);
                proof {
                    assert(seq![ins_atom(c)] =~= seq![v@[i as int]]);
                }
            },
            Atom::Del => {
                op.delete(1);
                proof {
                    assert(dels(1) =~= seq![Atom::Del]);
                }
            },
        }
        i = i + 1;
    }
    proof {
        assert(v@.take(v@.len() as int) =~= v@);
    }
    op
}

/// Emit `compose_atoms(a[i..], b[j..])` onto `out`.
fn compose_atoms_rec(a: &Vec<Atom>, i: usize, b: &Vec<Atom>, j: usize, out: &mut Vec<Atom>)
    requires
        i <= a@.len(),
        j <= b@.len(),
        atarget(a@.skip(i as int)) == abase(b@.skip(j as int)),
    ensures
        final(out)@ == old(out)@ + compose_atoms(a@.skip(i as int), b@.skip(j as int)),
    decreases a@.len() - i + b@.len() - j,
{
    let ghost ra = a@.skip(i as int);
    let ghost rb = b@.skip(j as int);
    proof {
        if i < a@.len() {
            assert(ra.first() == a@[i as int]);
            assert(ra.drop_first() =~= a@.skip(i + 1));
        }
        if j < b@.len() {
            assert(rb.first() == b@[j as int]);
            assert(rb.drop_first() =~= b@.skip(j + 1));
        }
    }
    if i < a.len() && matches!(a[i], Atom::Del) {
        out.push(Atom::Del);
        compose_atoms_rec(a, i + 1, b, j, out);
        proof {
            assert(old(out)@.push(Atom::Del) + compose_atoms(a@.skip(i + 1), rb) =~= old(out)@ + (
            seq![Atom::Del] + compose_atoms(a@.skip(i + 1), rb)));
        }
    } else if j < b.len() && matches!(b[j], Atom::Ins(_)) {
        out.push(b[j]);
        compose_atoms_rec(a, i, b, j + 1, out);
        proof {
            assert(old(out)@.push(rb.first()) + compose_atoms(ra, b@.skip(j + 1)) =~= old(out)@ + (
            seq![rb.first()] + compose_atoms(ra, b@.skip(j + 1))));
        }
    } else if i < a.len() && j < b.len() {
        match (a[i], b[j]) {
            (Atom::Keep, Atom::Keep) => {
                out.push(Atom::Keep);
                compose_atoms_rec(a, i + 1, b, j + 1, out);
                proof {
                    assert(old(out)@.push(Atom::Keep) + compose_atoms(
                        a@.skip(i + 1),
                        b@.skip(j + 1),
                    ) =~= old(out)@ + (seq![Atom::Keep] + compose_atoms(
                        a@.skip(i + 1),
                        b@.skip(j + 1),
                    )));
                }
            },
            (Atom::Keep, Atom::Del) => {
                out.push(Atom::Del);
                compose_atoms_rec(a, i + 1, b, j + 1, out);
                proof {
                    assert(old(out)@.push(Atom::Del) + compose_atoms(
                        a@.skip(i + 1),
                        b@.skip(j + 1),
                    ) =~= old(out)@ + (seq![Atom::Del] + compose_atoms(
                        a@.skip(i + 1),
                        b@.skip(j + 1),
                    )));
                }
            },
            (Atom::Ins(c), Atom::Keep) => {
                out.push(Atom::Ins(c));
                compose_atoms_rec(a, i + 1, b, j + 1, out);
                proof {
                    assert(old(out)@.push(ra.first()) + compose_atoms(
                        a@.skip(i + 1),
                        b@.skip(j + 1),
                    ) =~= old(out)@ + (seq![ra.first()] + compose_atoms(
                        a@.skip(i + 1),
                        b@.skip(j + 1),
                    )));
                }
            },
            (Atom::Ins(_), Atom::Del) => {
                compose_atoms_rec(a, i + 1, b, j + 1, out);
            },
            _ => {
                proof {
                    assert(false);
                }
            },
        }
    } else {
        proof {
            if i < a@.len() {
                assert(atarget(ra) >= 1);
                assert(abase(rb) == 0);
                assert(false);
            }
            if j < b@.len() {
                assert(abase(rb) >= 1);
                assert(atarget(ra) == 0);
                assert(false);
            }
            assert(ra =~= Seq::<Atom>::empty());
            assert(rb =~= Seq::<Atom>::empty());
            assert(compose_atoms(ra, rb) =~= Seq::<Atom>::empty());
            assert(old(out)@ + Seq::<Atom>::empty() =~= old(out)@);
        }
    }
}

/// Emit both halves of `transform_atoms(a[i..], b[j..])` onto `xa` and `xb`.
fn transform_atoms_rec(
    a: &Vec<Atom>,
    i: usize,
    b: &Vec<Atom>,
    j: usize,
    xa: &mut Vec<Atom>,
    xb: &mut Vec<Atom>,
)
    requires
        i <= a@.len(),
        j <= b@.len(),
        abase(a@.skip(i as int)) == abase(b@.skip(j as int)),
    ensures
        final(xa)@ == old(xa)@ + transform_atoms(a@.skip(i as int), b@.skip(j as int)).0,
        final(xb)@ == old(xb)@ + transform_atoms(a@.skip(i as int), b@.skip(j as int)).1,
    decreases a@.len() - i + b@.len() - j,
{
    let ghost ra = a@.skip(i as int);
    let ghost rb = b@.skip(j as int);
    proof {
        if i < a@.len() {
            assert(ra.first() == a@[i as int]);
            assert(ra.drop_first() =~= a@.skip(i + 1));
        }
        if j < b@.len() {
            assert(rb.first() == b@[j as int]);
            assert(rb.drop_first() =~= b@.skip(j + 1));
        }
    }
    if i < a.len() && matches!(a[i], Atom::Ins(_)) {
        xa.push(a[i]);
        xb.push(Atom::Keep);
        transform_atoms_rec(a, i + 1, b, j, xa, xb);
        proof {
            let r = transform_atoms(a@.skip(i + 1), rb);
            assert(old(xa)@.push(ra.first()) + r.0 =~= old(xa)@ + (seq![ra.first()] + r.0));
            assert(old(xb)@.push(Atom::Keep) + r.1 =~= old(xb)@ + (seq![Atom::Keep] + r.1));
        }
    } else if j < b.len() && matches!(b[j], Atom::Ins(_)) {
        xa.push(Atom::Keep);
        xb.push(b[j]);
        transform_atoms_rec(a, i, b, j + 1, xa, xb);
        proof {
            let r = transform_atoms(ra, b@.skip(j + 1));
            assert(old(xa)@.push(Atom::Keep) + r.0 =~= old(xa)@ + (seq![Atom::Keep] + r.0));
            assert(old(xb)@.push(rb.first()) + r.1 =~= old(xb)@ + (seq![rb.first()] + r.1));
        }
    } else if i < a.len() && j < b.len() {
        let ghost r = transform_atoms(a@.skip(i + 1), b@.skip(j + 1));
        match (a[i], b[j]) {
            (Atom::Keep, Atom::Keep) => {
                xa.push(Atom::Keep);
                xb.push(Atom::Keep);
                transform_atoms_rec(a, i + 1, b, j + 1, xa, xb);
                proof {
                    assert(old(xa)@.push(Atom::Keep) + r.0 =~= old(xa)@ + (seq![Atom::Keep] + r.0));
                    assert(old(xb)@.push(Atom::Keep) + r.1 =~= old(xb)@ + (seq![Atom::Keep] + r.1));
                }
            },
            (Atom::Keep, Atom::Del) => {
                xb.push(Atom::Del);
                transform_atoms_rec(a, i + 1, b, j + 1, xa, xb);
                proof {
                    assert(old(xb)@.push(Atom::Del) + r.1 =~= old(xb)@ + (seq![Atom::Del] + r.1));
                }
            },
            (Atom::Del, Atom::Keep) => {
                xa.push(Atom::Del);
                transform_atoms_rec(a, i + 1, b, j + 1, xa, xb);
                proof {
                    assert(old(xa)@.push(Atom::Del) + r.0 =~= old(xa)@ + (seq![Atom::Del] + r.0));
                }
            },
            (Atom::Del, Atom::Del) => {
                transform_atoms_rec(a, i + 1, b, j + 1, xa, xb);
            },
            _ => {
                proof {
                    assert(false);
                }
            },
        }
    } else {
        proof {
            if i < a@.len() {
                assert(abase(ra) >= 1);
                assert(abase(rb) == 0);
                assert(false);
            }
            if j < b@.len() {
                assert(abase(rb) >= 1);
                assert(abase(ra) == 0);
                assert(false);
            }
            assert(ra =~= Seq::<Atom>::empty());
            assert(rb =~= Seq::<Atom>::empty());
            assert(old(xa)@ + Seq::<Atom>::empty() =~= old(xa)@);
            assert(old(xb)@ + Seq::<Atom>::empty() =~= old(xb)@);
        }
    }
}

/// Emit `apply_atoms(ops[i..], d[j..])` onto `out`.
fn apply_atoms_rec(ops: &Vec<Atom>, i: usize, d: &Vec<char>, j: usize, out: &mut Vec<char>)
    requires
        i <= ops@.len(),
        j <= d@.len(),
        d@.skip(j as int).len() == abase(ops@.skip(i as int)),
    ensures
        final(out)@ == old(out)@ + apply_atoms(ops@.skip(i as int), d@.skip(j as int)),
    decreases ops@.len() - i,
{
    let dlen = d.len();
    let ghost ro = ops@.skip(i as int);
    let ghost rd = d@.skip(j as int);
    proof {
        if i < ops@.len() {
            assert(ro.first() == ops@[i as int]);
            assert(ro.drop_first() =~= ops@.skip(i + 1));
        }
        if j < d@.len() {
            assert(rd.first() == d@[j as int]);
            assert(rd.drop_first() =~= d@.skip(j + 1));
        }
    }
    if i == ops.len() {
        proof {
            assert(ro =~= Seq::<Atom>::empty());
            assert(apply_atoms(ro, rd) =~= Seq::<char>::empty());
            assert(old(out)@ + Seq::<char>::empty() =~= old(out)@);
        }
        return;
    }
    match ops[i] {
        Atom::Ins(c) => {
            out.push(c);
            apply_atoms_rec(ops, i + 1, d, j, out);
            proof {
                let r = apply_atoms(ops@.skip(i + 1), rd);
                assert(old(out)@.push(c) + r =~= old(out)@ + (seq![c] + r));
            }
        },
        Atom::Keep => {
            proof {
                assert(abase(ro) >= 1);
                assert(rd.len() >= 1);
                assert(j < dlen);
            }
            out.push(d[j]);
            apply_atoms_rec(ops, i + 1, d, j + 1, out);
            proof {
                let r = apply_atoms(ops@.skip(i + 1), d@.skip(j + 1));
                assert(old(out)@.push(rd.first()) + r =~= old(out)@ + (seq![rd.first()] + r));
            }
        },
        Atom::Del => {
            proof {
                assert(abase(ro) >= 1);
                assert(rd.len() >= 1);
                assert(j < dlen);
            }
            apply_atoms_rec(ops, i + 1, d, j + 1, out);
        },
    }
}

} // verus!
