//! The sequential review state machine.
//!
//! A session walks the post-deduplication suggestion sequence once, left to
//! right, identified here by index. Per suggestion the user decides to
//! accept it, skip it, stop and apply what was accepted so far, or abort the
//! whole run. Aborting discards the accepted set, so the patch stage is
//! never reached and no file is written.

use vstd::prelude::*;

verus! {

/// One decision at a prompt.
#[derive(Clone, Copy, PartialEq, Eq, Structural, Debug)]
pub enum ReviewDecision {
    Accept,
    Skip,
    Quit,
    Abort,
}

/// Where the session stands: still presenting suggestions, finished with an
/// accepted set to apply, or aborted with nothing to apply.
#[derive(Clone, Copy, PartialEq, Eq, Structural, Debug)]
pub enum ReviewStatus {
    Running,
    Done,
    Aborted,
}

/// The mathematical state of a session: how many suggestions there are,
/// which one is presented next, and which were accepted, in acceptance
/// order.
pub struct SessionModel {
    pub total: int,
    pub next: int,
    pub accepted: Seq<int>,
    pub status: ReviewStatus,
}

impl SessionModel {
    pub open spec fn wf(self) -> bool {
        &&& 0 <= self.next <= self.total
        &&& (self.status is Running ==> self.next < self.total)
        &&& forall|i: int| 0 <= i < self.accepted.len() ==> 0 <= #[trigger] self.accepted[i]
            < self.next
    }

    pub open spec fn init(total: int) -> SessionModel {
        SessionModel {
            total,
            next: 0,
            accepted: Seq::empty(),
            status: if total == 0 {
                ReviewStatus::Done
            } else {
                ReviewStatus::Running
            },
        }
    }
}

/// Moves past the presented suggestion, recording it when `take` holds.
pub open spec fn advance_model(m: SessionModel, take: bool) -> SessionModel {
    SessionModel {
        next: m.next + 1,
        accepted: if take {
            m.accepted.push(m.next)
        } else {
            m.accepted
        },
        status: if m.next + 1 == m.total {
            ReviewStatus::Done
        } else {
            ReviewStatus::Running
        },
        ..m
    }
}

/// One transition of the state machine. A session that is no longer
/// running ignores further decisions.
pub open spec fn step_model(m: SessionModel, d: ReviewDecision) -> SessionModel {
    if !(m.status is Running) {
        m
    } else {
        match d {
            ReviewDecision::Accept => advance_model(m, true),
            ReviewDecision::Skip => advance_model(m, false),
            ReviewDecision::Quit => SessionModel { status: ReviewStatus::Done, ..m },
            ReviewDecision::Abort => SessionModel {
                status: ReviewStatus::Aborted,
                accepted: Seq::empty(),
                ..m
            },
        }
    }
}

/// A transition on raw input: input that parses to no decision leaves the
/// session exactly as it was.
pub open spec fn step_opt_model(m: SessionModel, c: Option<ReviewDecision>) -> SessionModel {
    match c {
        Option::None => m,
        Option::Some(d) => step_model(m, d),
    }
}

/// Runs the machine over a whole sequence of parsed inputs.
pub open spec fn fold_model(m: SessionModel, cs: Seq<Option<ReviewDecision>>) -> SessionModel
    decreases cs.len(),
{
    if cs.len() == 0 {
        m
    } else {
        fold_model(step_opt_model(m, cs[0]), cs.skip(1))
    }
}

/// How many of the inputs advance the session to the next suggestion.
pub open spec fn count_advancing(cs: Seq<Option<ReviewDecision>>) -> int
    decreases cs.len(),
{
    if cs.len() == 0 {
        0
    } else {
        (if cs[0] == Option::Some(ReviewDecision::Accept) || cs[0] == Option::Some(
            ReviewDecision::Skip,
        ) {
            1int
        } else {
            0int
        }) + count_advancing(cs.skip(1))
    }
}

/// What `r`, `s`, `q` and `a` mean at a prompt; anything else is invalid.
pub open spec fn parse_spec(s: Seq<char>) -> Option<ReviewDecision> {
    if s == seq!['r'] {
        Option::Some(ReviewDecision::Accept)
    } else if s == seq!['s'] {
        Option::Some(ReviewDecision::Skip)
    } else if s == seq!['q'] {
        Option::Some(ReviewDecision::Quit)
    } else if s == seq!['a'] {
        Option::Some(ReviewDecision::Abort)
    } else {
        Option::None
    }
}

/// Parses one trimmed line of prompt input.
pub fn parse_command(input: &str) -> (r: Option<ReviewDecision>)
    ensures
        r == parse_spec(input@),
{
    let n = input.unicode_len();
    if n != 1 {
        return None;
    }
    let c = input.get_char(0);
    proof {
        assert(c == 'r' ==> input@ =~= seq!['r']);
        assert(c == 's' ==> input@ =~= seq!['s']);
        assert(c == 'q' ==> input@ =~= seq!['q']);
        assert(c == 'a' ==> input@ =~= seq!['a']);
    }
    if c == 'r' {
        Some(ReviewDecision::Accept)
    } else if c == 's' {
        Some(ReviewDecision::Skip)
    } else if c == 'q' {
        Some(ReviewDecision::Quit)
    } else if c == 'a' {
        Some(ReviewDecision::Abort)
    } else {
        None
    }
}

/// A review session over `total` suggestions, processed by index.
pub struct ReviewSession {
    pub total: usize,
    pub next: usize,
    pub accepted: Vec<usize>,
    pub status: ReviewStatus,
}

impl ReviewSession {
    pub open spec fn model(self) -> SessionModel {
        SessionModel {
            total: self.total as int,
            next: self.next as int,
            accepted: self.accepted@.map_values(|v: usize| v as int),
            status: self.status,
        }
    }

    pub open spec fn wf(self) -> bool {
        self.model().wf()
    }

    /// Opens a session; with nothing to review it is already done, with an
    /// empty accepted set.
    pub fn new(total: usize) -> (s: ReviewSession)
        ensures
            s.model() == SessionModel::init(total as int),
            s.wf(),
    {
        let s = ReviewSession {
            total,
            next: 0,
            accepted: Vec::new(),
            status: if total == 0 {
                ReviewStatus::Done
            } else {
                ReviewStatus::Running
            },
        };
        proof {
            assert(s.model().accepted =~= Seq::<int>::empty());
            assert(s.model() == SessionModel::init(total as int));
        }
        s
    }

    /// Applies one decision to the session.
    pub fn step(&mut self, d: ReviewDecision)
        requires
            old(self).wf(),
        ensures
            final(self).model() == step_model(old(self).model(), d),
            final(self).wf(),
    {
        if !matches!(self.status, ReviewStatus::Running) {
            return ;
        }
        match d {
            ReviewDecision::Accept => {
                self.accepted.push(self.next);
                self.next = self.next + 1;
                self.status = if self.next == self.total {
                    ReviewStatus::Done
                } else {
                    ReviewStatus::Running
                };
                proof {
                    assert(self.model().accepted =~= advance_model(
                        old(self).model(),
                        true,
                    ).accepted);
                    assert(self.model() == advance_model(old(self).model(), true));
                }
            },
            ReviewDecision::Skip => {
                self.next = self.next + 1;
                self.status = if self.next == self.total {
                    ReviewStatus::Done
                } else {
                    ReviewStatus::Running
                };
                proof {
                    assert(self.model() == advance_model(old(self).model(), false));
                }
            },
            ReviewDecision::Quit => {
                self.status = ReviewStatus::Done;
            },
            ReviewDecision::Abort => {
                self.accepted = Vec::new();
                self.status = ReviewStatus::Aborted;
                proof {
                    assert(self.model().accepted =~= Seq::<int>::empty());
                    assert(self.model() == step_model(old(self).model(), d));
                }
            },
        }
    }

    /// Applies one line of raw prompt input. Input that parses to no
    /// decision leaves the session exactly as it was, so the same
    /// suggestion is presented again.
    pub fn step_input(&mut self, input: &str)
        requires
            old(self).wf(),
        ensures
            final(self).model() == step_opt_model(old(self).model(), parse_spec(input@)),
            final(self).wf(),
            parse_spec(input@) is None ==> final(self).model() == old(self).model(),
    {
        match parse_command(input) {
            Option::Some(d) => self.step(d),
            Option::None => (),
        }
    }

    /// Automatic mode: every suggestion is accepted, in original order,
    /// without any prompt being read.
    pub fn run_automatic(total: usize) -> (s: ReviewSession)
        ensures
            s.wf(),
            s.model().status is Done,
            s.model().total == total as int,
            s.model().accepted == Seq::new(total as nat, |i: int| i),
    {
        let mut s = ReviewSession::new(total);
        while matches!(s.status, ReviewStatus::Running)
            invariant
                s.wf(),
                s.model().total == total as int,
                s.model().status is Running || s.model().status is Done,
                s.model().status is Done ==> s.model().next == total as int,
                s.model().accepted =~= Seq::new(s.model().next as nat, |i: int| i),
            decreases total as int - s.model().next,
        {
            s.step(ReviewDecision::Accept);
        }
        proof {
            assert(s.model().accepted =~= Seq::new(total as nat, |i: int| i));
        }
        s
    }
}

/// No sequence of inputs advances the session a negative number of times.
pub proof fn lemma_count_advancing_nonneg(cs: Seq<Option<ReviewDecision>>)
    ensures
        count_advancing(cs) >= 0,
    decreases cs.len(),
{
    if cs.len() > 0 {
        lemma_count_advancing_nonneg(cs.skip(1));
    }
}

/// A session that has stopped running is settled: no further input changes
/// it.
pub proof fn lemma_terminal_stays(m: SessionModel, cs: Seq<Option<ReviewDecision>>)
    requires
        !(m.status is Running),
    ensures
        fold_model(m, cs) == m,
    decreases cs.len(),
{
    if cs.len() > 0 {
        lemma_terminal_stays(m, cs.skip(1));
    }
}

/// Abort short-circuits the run: if an abort decision is reached at a
/// prompt — no quit came before it, and too few suggestions were accepted
/// or skipped before it to exhaust the sequence — the session ends aborted
/// with an empty accepted set, whatever was accepted earlier and whatever
/// input follows. The patch stage is therefore never invoked and no file
/// is written.
pub proof fn lemma_abort_short_circuit(
    m: SessionModel,
    cs: Seq<Option<ReviewDecision>>,
    k: int,
)
    requires
        m.wf(),
        m.status is Running,
        0 <= k < cs.len(),
        cs[k] == Option::Some(ReviewDecision::Abort),
        forall|j: int| 0 <= j < k ==> cs[j] != Option::Some(ReviewDecision::Quit),
        count_advancing(cs.take(k)) < m.total - m.next,
    ensures
        fold_model(m, cs).status is Aborted,
        fold_model(m, cs).accepted == Seq::<int>::empty(),
    decreases k,
{
    let m1 = step_opt_model(m, cs[0]);
    if k == 0 {
        assert(m1.status is Aborted && m1.accepted == Seq::<int>::empty());
        lemma_terminal_stays(m1, cs.skip(1));
    } else {
        assert(cs.take(k)[0] == cs[0]);
        assert(cs.take(k).skip(1) =~= cs.skip(1).take(k - 1));
        match cs[0] {
            Option::Some(d) => {
                if d == ReviewDecision::Abort {
                    assert(m1.status is Aborted && m1.accepted == Seq::<int>::empty());
                    lemma_terminal_stays(m1, cs.skip(1));
                } else {
                    assert(d == ReviewDecision::Accept || d == ReviewDecision::Skip);
                    assert(count_advancing(cs.take(k)) == 1 + count_advancing(
                        cs.skip(1).take(k - 1),
                    ));
                    lemma_count_advancing_nonneg(cs.skip(1).take(k - 1));
                    lemma_abort_short_circuit(m1, cs.skip(1), k - 1);
                }
            },
            Option::None => {
                lemma_abort_short_circuit(m1, cs.skip(1), k - 1);
            },
        }
    }
}

} // verus!
