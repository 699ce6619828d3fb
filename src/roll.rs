use crate::render::{history_text, push_history};
use crate::roll::kind::{single_text, Multi, Single};
use crate::text::{push_signed, push_str, signed_decimal, string_of};
use vstd::prelude::*;

pub mod history;
pub mod kind;

verus! {

/// A single roll expression, or a repeated one.
#[derive(Debug, Clone)]
pub enum Kind {
    Single(Single),
    Multi(Multi),
}

/// The reason as it is shown after a result.
pub open spec fn reason_text(reason: Option<Seq<char>>, lead: bool) -> Seq<char> {
    match reason {
        Some(t) => (if lead {
            seq![' ']
        } else {
            Seq::empty()
        }) + "*reason* `"@ + t + seq!['`'],
        None => Seq::empty(),
    }
}

/// Each roll's history between backticks, one per line.
pub open spec fn histories_text(rolls: Seq<Single>) -> Seq<char>
    decreases rolls.len(),
{
    if rolls.len() == 0 {
        Seq::empty()
    } else {
        histories_text(rolls.drop_last()) + seq!['`'] + history_text(rolls.last()@.history) + seq!['`', '\n']
    }
}

/// Each roll as markdown, one per line.
pub open spec fn singles_text(rolls: Seq<Single>) -> Seq<char>
    decreases rolls.len(),
{
    if rolls.len() == 0 {
        Seq::empty()
    } else {
        singles_text(rolls.drop_last()) + single_text(rolls.last()@) + seq!['\n']
    }
}

/// How a result is shown.
pub open spec fn result_text(kind: Kind, reason: Option<Seq<char>>) -> Seq<char> {
    match kind {
        Kind::Single(x) => single_text(x@) + reason_text(reason, true),
        Kind::Multi(m) => match m.total {
            Some(t) => histories_text(m.rolls@) + "*total* **"@ + signed_decimal(t as int) + "**"@ + reason_text(
                reason,
                true,
            ),
            None => singles_text(m.rolls@) + reason_text(reason, false),
        },
    }
}

/// The answer to a query: its result and the reason that came with it.
#[derive(Debug, Clone)]
pub struct Result {
    result: Kind,
    reason: Option<String>,
}

impl Result {
    pub closed spec fn kind(&self) -> Kind {
        self.result
    }

    pub closed spec fn reason(&self) -> Option<Seq<char>> {
        match self.reason {
            Some(s) => Some(s@),
            None => None,
        }
    }

    /// Every roll of the result is well formed.
    pub open spec fn wf(&self) -> bool {
        match self.kind() {
            Kind::Single(x) => x.wf(),
            Kind::Multi(m) => forall|i: int| 0 <= i < m.rolls@.len() ==> (#[trigger] m.rolls@[i]).wf(),
        }
    }

    fn push_reason(&self, out: &mut Vec<char>, lead: bool)
        ensures
            final(out)@ == old(out)@ + reason_text(self.reason(), lead),
    {
        let ghost start = out@;
        match &self.reason {
            Some(t) => {
                if lead {
                    out.push(' ');
                }
                push_str(out, "*reason* `");
                push_str(out, t.as_str());
                out.push('`');
                proof {
                    let l = if lead {
                        seq![' ']
                    } else {
                        Seq::<char>::empty()
                    };
                    assert(out@ == start + (l + "*reason* `"@ + t@ + seq!['`']));
                }
            },
            None => {
                proof {
                    assert(out@ == start + Seq::<char>::empty());
                }
            },
        }
    }

    /// The result as markdown.
    pub fn to_string(&self) -> (r: String)
        requires
            self.wf(),
        ensures
            r@ == result_text(self.kind(), self.reason()),
    {
        let mut out: Vec<char> = Vec::new();
        match &self.result {
            Kind::Single(x) => {
                x.push_text(&mut out);
                self.push_reason(&mut out, true);
            },
            Kind::Multi(m) => {
                let rolls = &m.rolls;
                proof {
                    assert(self.kind() == Kind::Multi(*m));
                    assert(forall|k: int| 0 <= k < rolls@.len() ==> (#[trigger] rolls@[k]).wf());
                }
                match m.total {
                    Some(t) => {
                        let mut i: usize = 0;
                        while i < rolls.len()
                            invariant
                                i <= rolls@.len(),
                                self.wf(),
                                forall|k: int| 0 <= k < rolls@.len() ==> (#[trigger] rolls@[k]).wf(),
                                out@ == histories_text(rolls@.subrange(0, i as int)),
                            decreases rolls@.len() - i,
                        {
                            out.push('`');
                            proof {
                                assert(rolls@[i as int].wf());
                            }
                            push_history(&mut out, &rolls[i].get_history());
                            out.push('`');
                            out.push('\n');
                            i = i + 1;
                            proof {
                                assert(rolls@.subrange(0, i as int).drop_last() == rolls@.subrange(0, i - 1));
                            }
                        }
                        proof {
                            assert(rolls@.subrange(0, rolls@.len() as int) == rolls@);
                        }
                        push_str(&mut out, "*total* **");
                        push_signed(&mut out, t as i128);
                        push_str(&mut out, "**");
                        self.push_reason(&mut out, true);
                    },
                    None => {
                        let mut i: usize = 0;
                        while i < rolls.len()
                            invariant
                                i <= rolls@.len(),
                                self.wf(),
                                forall|k: int| 0 <= k < rolls@.len() ==> (#[trigger] rolls@[k]).wf(),
                                out@ == singles_text(rolls@.subrange(0, i as int)),
                            decreases rolls@.len() - i,
                        {
                            proof {
                                assert(rolls@[i as int].wf());
                            }
                            rolls[i].push_text(&mut out);
                            out.push('\n');
                            i = i + 1;
                            proof {
                                assert(rolls@.subrange(0, i as int).drop_last() == rolls@.subrange(0, i - 1));
                            }
                        }
                        proof {
                            assert(rolls@.subrange(0, rolls@.len() as int) == rolls@);
                        }
                        self.push_reason(&mut out, false);
                    },
                }
            },
        }
        string_of(&out)
    }

    pub fn new_single(r: Single) -> (res: Self)
        ensures
            res.kind() == Kind::Single(r),
            res.reason().is_none(),
    {
        Result { result: Kind::Single(r), reason: None }
    }

    pub fn new_multi(v: Vec<Single>, total: Option<i64>) -> (res: Self)
        ensures
            res.kind() == Kind::Multi(Multi { rolls: v, total }),
            res.reason().is_none(),
    {
        Result { result: Kind::Multi(Multi { rolls: v, total }), reason: None }
    }

    pub fn add_reason(&mut self, reason: String)
        ensures
            final(self).kind() == old(self).kind(),
            final(self).reason() == Some(reason@),
    {
        self.reason = Some(reason);
    }

    pub fn get_reason(&self) -> (r: Option<&String>)
        ensures
            match r {
                Some(s) => self.reason() == Some(s@),
                None => self.reason().is_none(),
            },
    {
        match &self.reason {
            Some(s) => Some(s),
            None => None,
        }
    }

    pub fn get_result(&self) -> (r: &Kind)
        ensures
            *r == self.kind(),
    {
        &self.result
    }

    pub fn as_single(&self) -> (r: Option<&Single>)
        ensures
            match self.kind() {
                Kind::Single(s) => r == Some(&s),
                Kind::Multi(_) => r.is_none(),
            },
    {
        match &self.result {
            Kind::Single(result) => Some(result),
            Kind::Multi(_) => None,
        }
    }

    pub fn as_multi(&self) -> (r: Option<&Multi>)
        ensures
            match self.kind() {
                Kind::Single(_) => r.is_none(),
                Kind::Multi(m) => r == Some(&m),
            },
    {
        match &self.result {
            Kind::Single(_) => None,
            Kind::Multi(results) => Some(results),
        }
    }
}

/// Something that rolls dice: each throw gives a face of a die with `sides` faces.
pub trait Source {
    fn throw(&mut self, sides: u64) -> (r: u64)
        requires
            sides >= 1,
        ensures
            1 <= r <= sides,
    ;
}

} // verus!
