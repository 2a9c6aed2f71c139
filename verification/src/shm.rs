//! What has to be decided about a region of shared memory: whether its name will do, how large
//! it is, and what to do next while it is being mapped.
use vstd::prelude::*;
use vstd::string::StrSliceExecFns;

verus! {

/// A name that follows the rules of POSIX shared memory: it starts with a slash, and holds no
/// other slash and no NUL.
pub open spec fn is_region_name(name: Seq<char>) -> bool {
    &&& name.len() > 0
    &&& name[0] == '/'
    &&& forall|i: int| 0 < i < name.len() ==> #[trigger] name[i] != '/' && name[i] != '\0'
}

/// Whether a name follows the rules of POSIX shared memory.
pub fn region_name_ok(name: &str) -> (ok: bool)
    ensures
        ok == is_region_name(name@),
{
    let n = name.unicode_len();
    if n == 0 || name.get_char(0) != '/' {
        return false;
    }
    let mut i: usize = 1;
    while i < n
        invariant
            n == name@.len(),
            1 <= i <= n,
            name@[0] == '/',
            forall|j: int| 0 < j < i ==> #[trigger] name@[j] != '/' && name@[j] != '\0',
        decreases n - i,
    {
        let c = name.get_char(i);
        if c == '/' || c == '\0' {
            return false;
        }
        i = i + 1;
    }
    true
}

/// The number of bytes that `capacity` slots of `slot_size` bytes take up, if there can be so
/// many.
pub fn region_size(capacity: usize, slot_size: usize) -> (size: Option<usize>)
    ensures
        match size {
            Some(size) => size == capacity * slot_size,
            None => capacity * slot_size > usize::MAX,
        },
{
    capacity.checked_mul(slot_size)
}

/// How far the mapping of a region has come. The descriptor of the region is kept only as long as
/// it takes to map it.
#[derive(Clone, Copy, Debug)]
pub enum Stage {
    /// The region is to be opened, and created if need be.
    Open,
    /// The region is to be given its size.
    Resize { fd: i32 },
    /// The region is to be mapped.
    Attach { fd: i32 },
    /// The descriptor is to be closed.
    Close { fd: i32, outcome: Result<usize, i32> },
    /// Nothing is left to do: the address of the mapping, or the error that stopped it.
    End { outcome: Result<usize, i32> },
}

/// What the system answered: the descriptor of the region it opened, the address it mapped it at,
/// nothing of interest, or an error.
#[derive(Clone, Copy, Debug)]
pub enum Answer {
    Descriptor { fd: i32 },
    Address { address: usize },
    Done,
    Error { code: i32 },
}

impl Stage {
    /// Whether an answer is one to what is to be done at this stage.
    pub open spec fn expects(self, answer: Answer) -> bool {
        match self {
            Stage::Open => answer is Descriptor || answer is Error,
            Stage::Resize { .. } => answer is Done || answer is Error,
            Stage::Attach { .. } => answer is Address || answer is Error,
            Stage::Close { .. } => answer is Done || answer is Error,
            Stage::End { .. } => false,
        }
    }

    /// The stage that follows an answer. An error ends the mapping, but not before the
    /// descriptor is closed; how closing it goes makes no difference.
    pub open spec fn following(self, answer: Answer) -> Stage {
        match (self, answer) {
            (Stage::Open, Answer::Descriptor { fd }) => Stage::Resize { fd },
            (Stage::Open, Answer::Error { code }) => Stage::End { outcome: Err(code) },
            (Stage::Resize { fd }, Answer::Done) => Stage::Attach { fd },
            (Stage::Attach { fd }, Answer::Address { address }) => Stage::Close {
                fd,
                outcome: Ok(address),
            },
            (Stage::Resize { fd }, Answer::Error { code }) => Stage::Close {
                fd,
                outcome: Err(code),
            },
            (Stage::Attach { fd }, Answer::Error { code }) => Stage::Close {
                fd,
                outcome: Err(code),
            },
            (Stage::Close { outcome, .. }, _) => Stage::End { outcome },
            _ => self,
        }
    }

    /// The stage after the system has answered.
    pub fn next(self, answer: Answer) -> (stage: Stage)
        requires
            self.expects(answer),
        ensures
            stage == self.following(answer),
    {
        match self {
            Stage::Open => match answer {
                Answer::Descriptor { fd } => Stage::Resize { fd },
                Answer::Error { code } => Stage::End { outcome: Err(code) },
                _ => self,
            },
            Stage::Resize { fd } => match answer {
                Answer::Done => Stage::Attach { fd },
                Answer::Error { code } => Stage::Close { fd, outcome: Err(code) },
                _ => self,
            },
            Stage::Attach { fd } => match answer {
                Answer::Address { address } => Stage::Close { fd, outcome: Ok(address) },
                Answer::Error { code } => Stage::Close { fd, outcome: Err(code) },
                _ => self,
            },
            Stage::Close { fd: _, outcome } => Stage::End { outcome },
            Stage::End { outcome: _ } => self,
        }
    }
}

/// The stages of a mapping: it starts by opening the region, every stage but the last is answered
/// as it expects, and the last is the end.
pub open spec fn is_mapping(stages: Seq<Stage>, answers: Seq<Answer>) -> bool {
    &&& stages.len() == answers.len() + 1
    &&& stages[0] == Stage::Open
    &&& stages.last() is End
    &&& forall|t: int|
        #![trigger answers[t]]
        0 <= t < answers.len() ==> {
            &&& stages[t].expects(answers[t])
            &&& stages[t + 1] == stages[t].following(answers[t])
        }
}

/// Every mapping that opens a region closes its descriptor, once, right before it ends; one that
/// does not closes nothing.
pub proof fn law_descriptor_is_closed(stages: Seq<Stage>, answers: Seq<Answer>)
    requires
        is_mapping(stages, answers),
    ensures
        answers[0] matches Answer::Descriptor { fd } ==> {
            &&& stages.len() >= 3
            &&& stages[stages.len() - 2] matches Stage::Close { fd: closed, .. }
            &&& closed == fd
            &&& forall|t: int|
                0 <= t < stages.len() && (#[trigger] stages[t]) is Close ==> t == stages.len() - 2
        },
        answers[0] is Error ==> stages.len() == 2 && stages[1] == (Stage::End {
            outcome: Err(answers[0]->code),
        }),
{
    lemma_mapping(stages, answers);
}

/// A mapping yields an address if opening, resizing and mapping all succeed, and otherwise the
/// first error that came up.
pub proof fn law_mapping_outcome(stages: Seq<Stage>, answers: Seq<Answer>)
    requires
        is_mapping(stages, answers),
    ensures
        match stages.last() {
            Stage::End { outcome: Ok(address) } => {
                &&& answers.len() == 4
                &&& answers[0] is Descriptor
                &&& answers[1] is Done
                &&& answers[2] == (Answer::Address { address })
            },
            Stage::End { outcome: Err(code) } => exists|t: int|
                {
                    &&& 0 <= t < 3 && t < answers.len()
                    &&& #[trigger] answers[t] == (Answer::Error { code })
                    &&& forall|u: int| 0 <= u < t ==> !(#[trigger] answers[u] is Error)
                },
            _ => false,
        },
{
    lemma_mapping(stages, answers);
}

/// The courses that a mapping can take.
proof fn lemma_mapping(stages: Seq<Stage>, answers: Seq<Answer>)
    requires
        is_mapping(stages, answers),
    ensures
        2 <= stages.len() <= 5,
        stages.len() != 3,
        stages[0] is Open,
        stages[1] == stages[0].following(answers[0]),
        stages.len() == 2 ==> answers[0] is Error && stages[1] is End,
        stages.len() == 4 ==> {
            &&& answers[0] is Descriptor
            &&& answers[1] is Error
            &&& stages[1] == (Stage::Resize { fd: answers[0]->fd })
            &&& stages[2] == (Stage::Close { fd: answers[0]->fd, outcome: Err(answers[1]->code) })
            &&& stages[3] == (Stage::End { outcome: Err(answers[1]->code) })
        },
        stages.len() == 5 ==> {
            &&& answers[0] is Descriptor
            &&& answers[1] is Done
            &&& stages[1] == (Stage::Resize { fd: answers[0]->fd })
            &&& stages[2] == (Stage::Attach { fd: answers[0]->fd })
            &&& stages[3] == stages[2].following(answers[2])
            &&& stages[3] is Close
            &&& stages[4] == (Stage::End { outcome: stages[3]->Close_outcome })
            &&& answers[2] is Address || answers[2] is Error
        },
{
    assert(stages.len() >= 2);
    assert(stages[0].expects(answers[0]));
    if stages.len() > 2 {
        assert(stages[1].expects(answers[1]));
    }
    if stages.len() > 3 {
        assert(stages[2].expects(answers[2]));
    }
    if stages.len() > 4 {
        assert(stages[3].expects(answers[3]));
    }
    if stages.len() > 5 {
        assert(stages[4].expects(answers[4]));
    }
}

} // verus!
