//! Numbers that come from outside: chance, and functions whose digits the platform decides.
//!
//! Sines, powers and the like are not rounded alike on every platform, and random numbers differ
//! by nature.  The simulation asks for them, and keeps a ghost record of what it asked and what it
//! was told, so that its contracts can say what it made of every possible reply.
//!
//! A contract reads the record of a call, followed by anything that may still come, and says that
//! exactly the latter is left over.  Since [`past`] leaves nothing over where other questions were
//! put, the contract also says which questions the call put, and in which order.
use rand::Rng;
use vstd::prelude::*;

use crate::single::{le, lt, Single};

verus! {

/// A question to the outside.
#[derive(Debug, Clone, Copy)]
pub enum Ask {
    /// The cosine of an angle.
    Cos(Single),
    /// The sine of an angle.
    Sin(Single),
    /// The angle of the vector whose second coordinate comes first here.
    Atan2(Single, Single),
    /// The length of a vector.
    Hypot(Single, Single),
    /// The first number to the power of the second.
    Pow(Single, Single),
    /// A random number from the first up to the second, which is left out.
    Uniform(Single, Single),
}

/// One reply from outside.
pub enum Event {
    /// The answer to a question.
    Number(Ask, Single),
    /// A random count between two bounds: the bounds, then the count.
    Count(u32, u32, u32),
}

/// What came from outside, in order.
pub type Trace = Seq<Event>;

/// The number at place `k` of a record, given in reply to `q`.
pub open spec fn told(t: Trace, k: int, q: Ask) -> Single {
    match t[k] {
        Event::Number(p, a) => if p == q {
            a
        } else {
            arbitrary()
        },
        Event::Count(_, _, _) => arbitrary(),
    }
}

/// The count at place `k` of a record, drawn between the bounds; where the record holds no such
/// count, the lower bound.
pub open spec fn told_count(t: Trace, k: int, low: u32, high: u32) -> u32 {
    match t[k] {
        Event::Number(_, _) => low,
        Event::Count(l, h, n) => if l == low && h == high && low <= n <= high {
            n
        } else {
            low
        },
    }
}

/// Whether the first replies of a record were given to these questions, in this order.
pub open spec fn answers(t: Trace, qs: Seq<Ask>) -> bool {
    &&& qs.len() <= t.len()
    &&& forall|i: int|
        0 <= i < qs.len() ==> (t[i] matches Event::Number(p, _) && p == #[trigger] qs[i])
}

/// What follows the replies to these questions.  A record that does not begin with replies to them
/// is no record of asking them, and nothing follows in it: a function that leaves over what was
/// still to come, whatever it is, has put these questions.
pub open spec fn past(t: Trace, qs: Seq<Ask>) -> Trace {
    if answers(t, qs) {
        t.skip(qs.len() as int)
    } else {
        Seq::empty()
    }
}

/// Whether the first reply of a record is a count drawn between the bounds.
pub open spec fn counts(t: Trace, low: u32, high: u32) -> bool {
    t.len() > 0 && (t[0] matches Event::Count(l, h, n) && l == low && h == high && low <= n <= high)
}

/// What follows a count between the bounds; nothing where the record does not begin with one.
pub open spec fn past_count(t: Trace, low: u32, high: u32) -> Trace {
    if counts(t, low, high) {
        t.skip(1)
    } else {
        Seq::empty()
    }
}

/// Whether every random number of a record lies within the bounds that were asked for.
pub open spec fn is_fair(t: Trace) -> bool {
    forall|i: int|
        0 <= i < t.len() ==> match #[trigger] t[i] {
            Event::Number(Ask::Uniform(low, high), a) => lt(low, high) ==> le(low, a) && lt(
                a,
                high,
            ),
            _ => true,
        }
}

/// The source of numbers from outside, with the record of its replies.
pub struct Oracle<F: Fn(Ask) -> Single> {
    source: F,
    log: Ghost<Trace>,
}

/// Calls `rand::Rng::gen_range` on the thread's generator with a range that includes both ends:
/// the result lies between them.  Nothing more is claimed of a random number.
#[verifier::external_body]
fn random_count(low: u32, high: u32) -> (n: u32)
    requires
        low <= high,
    ensures
        low <= n <= high,
{
    rand::thread_rng().gen_range(low..=high)
}

impl<F: Fn(Ask) -> Single> Oracle<F> {
    /// The source answers every question.
    #[verifier::type_invariant]
    spec fn inv(self) -> bool {
        forall|q: Ask| call_requires(self.source, (q,))
    }

    /// The record of the replies so far.
    pub closed spec fn log(self) -> Trace {
        self.log@
    }

    /// Whether the source may answer `a` to `q`.
    pub closed spec fn may_answer(self, q: Ask, a: Single) -> bool {
        call_ensures(self.source, (q,), a)
    }

    /// Whether a reply is one that may be given: an answer of the source, a count within bounds.
    pub open spec fn may_reply(self, e: Event) -> bool {
        match e {
            Event::Number(q, a) => self.may_answer(q, a),
            Event::Count(low, high, n) => low <= n <= high,
        }
    }

    /// The replies since an earlier moment.
    pub open spec fn since(self, earlier: Self) -> Trace {
        self.log().skip(earlier.log().len() as int)
    }

    /// This is the same oracle at a later moment, after replies that may be given.
    pub open spec fn follows(self, earlier: Self) -> bool {
        &&& earlier.log().len() <= self.log().len()
        &&& self.log().take(earlier.log().len() as int) == earlier.log()
        &&& forall|q: Ask, a: Single|
            #[trigger] self.may_answer(q, a) == earlier.may_answer(q, a)
        &&& forall|i: int|
            earlier.log().len() <= i < self.log().len() ==> self.may_reply(#[trigger] self.log()[i])
    }

    pub fn new(source: F) -> (r: Self)
        requires
            forall|q: Ask| call_requires(source, (q,)),
        ensures
            r.log() == Seq::<Event>::empty(),
            forall|q: Ask, a: Single| r.may_answer(q, a) == call_ensures(source, (q,), a),
    {
        Oracle { source, log: Ghost(Seq::empty()) }
    }

    /// Asks for a number.
    pub fn ask(&mut self, q: Ask) -> (a: Single)
        ensures
            final(self).log() == old(self).log().push(Event::Number(q, a)),
            old(self).may_answer(q, a),
            final(self).follows(*old(self)),
    {
        proof {
            use_type_invariant(&*self);
        }
        let a: Single = (self.source)(q);
        self.log = Ghost(self.log@.push(Event::Number(q, a)));
        assert(self.log().take(old(self).log().len() as int) =~= old(self).log());
        a
    }

    /// Asks for a random count.
    pub fn count(&mut self, low: u32, high: u32) -> (n: u32)
        requires
            low <= high,
        ensures
            low <= n <= high,
            final(self).log() == old(self).log().push(Event::Count(low, high, n)),
            final(self).follows(*old(self)),
    {
        proof {
            use_type_invariant(&*self);
        }
        let n: u32 = random_count(low, high);
        self.log = Ghost(self.log@.push(Event::Count(low, high, n)));
        assert(self.log().take(old(self).log().len() as int) =~= old(self).log());
        n
    }
}

/// What follows a later moment follows the earlier one.
pub broadcast proof fn lemma_follows<F: Fn(Ask) -> Single>(
    a: Oracle<F>,
    b: Oracle<F>,
    c: Oracle<F>,
)
    requires
        #[trigger] b.follows(a),
        #[trigger] c.follows(b),
    ensures
        c.follows(a),
{
    assert forall|i: int| a.log().len() <= i < c.log().len() implies c.may_reply(
        #[trigger] c.log()[i],
    ) by {
        if i < b.log().len() {
            assert(c.log().take(b.log().len() as int)[i] == b.log()[i]);
            assert(b.may_reply(b.log()[i]));
        }
    }
    assert(c.log().take(a.log().len() as int) =~= c.log().take(b.log().len() as int).take(
        a.log().len() as int,
    ));
}

/// What came since an early moment came up to a middle moment and then since that moment.
pub proof fn lemma_since_chain<F: Fn(Ask) -> Single>(a: Oracle<F>, b: Oracle<F>, c: Oracle<F>)
    requires
        b.follows(a),
        c.follows(b),
    ensures
        c.follows(a),
        c.since(a) == b.since(a) + c.since(b),
        forall|rest: Trace| #[trigger] (c.since(a) + rest) == b.since(a) + (c.since(b) + rest),
{
    lemma_follows(a, b, c);
    assert(c.since(a) =~= b.since(a) + c.since(b));
    assert forall|rest: Trace| #[trigger]
        (c.since(a) + rest) == b.since(a) + (c.since(b) + rest) by {
        assert(c.since(a) + rest =~= b.since(a) + (c.since(b) + rest));
    }
}

/// Nothing came since the present moment.
pub proof fn lemma_since_now<F: Fn(Ask) -> Single>(a: Oracle<F>)
    ensures
        a.follows(a),
        a.since(a) == Seq::<Event>::empty(),
        forall|rest: Trace| #[trigger] (a.since(a) + rest) == rest,
{
    assert(a.log().take(a.log().len() as int) =~= a.log());
    assert(a.since(a) =~= Seq::<Event>::empty());
    assert forall|rest: Trace| #[trigger] (a.since(a) + rest) == rest by {
        assert(a.since(a) + rest =~= rest);
    }
}

/// After the replies to all its questions, a record leaves what is still to come.
pub proof fn lemma_past(t: Trace)
    ensures
        forall|rest: Trace, qs: Seq<Ask>|
            answers(t, qs) && qs.len() == t.len() ==> #[trigger] past(t + rest, qs) == rest,
{
    assert forall|rest: Trace, qs: Seq<Ask>| answers(t, qs) && qs.len() == t.len() implies
        #[trigger] past(t + rest, qs) == rest by {
        assert((t + rest).skip(t.len() as int) =~= rest);
        assert forall|i: int| 0 <= i < qs.len() implies ((t + rest)[i] matches Event::Number(p, _)
            && p == #[trigger] qs[i]) by {
            assert((t + rest)[i] == t[i]);
        }
    }
}

/// After a count, a record leaves what is still to come.
pub proof fn lemma_past_count(t: Trace, low: u32, high: u32)
    requires
        t.len() == 1,
        counts(t, low, high),
    ensures
        forall|rest: Trace| #[trigger] past_count(t + rest, low, high) == rest,
{
    assert forall|rest: Trace| #[trigger] past_count(t + rest, low, high) == rest by {
        assert((t + rest).skip(1) =~= rest);
        assert((t + rest)[0] == t[0]);
    }
}

/// A source that keeps its random numbers within their bounds leaves a fair record.
pub proof fn law_fair_sources_leave_fair_records<F: Fn(Ask) -> Single>(a: Oracle<F>, b: Oracle<F>)
    requires
        b.follows(a),
        forall|low: Single, high: Single, x: Single|
            lt(low, high) && #[trigger] a.may_answer(Ask::Uniform(low, high), x) ==> le(low, x)
                && lt(x, high),
    ensures
        is_fair(b.since(a)),
{
    let t = b.since(a);
    assert forall|i: int| 0 <= i < t.len() implies match #[trigger] t[i] {
        Event::Number(Ask::Uniform(low, high), x) => lt(low, high) ==> le(low, x) && lt(x, high),
        _ => true,
    } by {
        let k = a.log().len() + i;
        assert(t[i] == b.log()[k]);
        assert(b.may_reply(b.log()[k]));
    }
}

/// What is left over of a record that holds something still to come was not made up: the questions
/// were put.
pub proof fn law_what_is_left_was_asked_for(t: Trace, qs: Seq<Ask>)
    requires
        past(t, qs).len() > 0,
    ensures
        answers(t, qs),
        forall|i: int|
            0 <= i < qs.len() ==> t[i] == Event::Number(qs[i], #[trigger] told(t, i, qs[i])),
{
}

} // verus!
