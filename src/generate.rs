use vstd::prelude::*;

use crate::tokenizer::BOS;

verus! {

/// Why a generation cannot start.
#[derive(Clone, Copy, Debug, PartialEq, Eq, Structural)]
pub enum GenerateError {
    /// The prompt encodes to no token at all.
    EmptyPrompt,
}

/// What the driver does after one forward step.
#[derive(Clone, Copy, Debug, PartialEq, Eq, Structural)]
pub enum Emit {
    /// Nothing to show yet (the first position).
    Nothing,
    /// Show `decode(token, prev_token)`.
    Piece { token: u32, prev_token: u32 },
    /// The next token is BOS: the stream has ended.
    Stop,
}

/// The decisions of autoregressive generation: which token and position go through the
/// model next, when the prompt gives the next token and when the sampler does, what is
/// shown, and when it ends. The caller runs the model and the sampler.
#[derive(Debug)]
pub struct Generation {
    pub prompt: Vec<u32>,
    /// Number of forward steps allowed, at most the model's context length.
    pub steps: usize,
    /// Position of the next forward step: the number of steps already taken.
    pub pos: usize,
    pub token: u32,
    pub prev_token: u32,
    pub finished: bool,
}

impl Generation {
    pub open spec fn wf(self) -> bool {
        &&& self.prompt@.len() >= 1
        &&& self.pos <= self.steps
    }

    /// Starts a generation of at most `steps` positions (and at most `seq_len`) over
    /// the encoded prompt.
    pub fn new(prompt: Vec<u32>, steps: usize, seq_len: usize) -> (r: Result<Generation, GenerateError>)
        ensures
            r is Err <==> prompt@.len() == 0,
            r is Err ==> r == Err::<Generation, GenerateError>(GenerateError::EmptyPrompt),
            r matches Ok(g) ==> {
                &&& g.wf()
                &&& g.prompt@ == prompt@
                &&& g.steps == if steps < seq_len {
                    steps
                } else {
                    seq_len
                }
                &&& g.pos == 0
                &&& g.token == prompt@[0]
                &&& g.prev_token == prompt@[0]
                &&& !g.finished
            },
    {
        if prompt.len() == 0 {
            return Err(GenerateError::EmptyPrompt);
        }
        let first = prompt[0];
        Ok(Generation {
            prompt,
            steps: if steps < seq_len {
                steps
            } else {
                seq_len
            },
            pos: 0,
            token: first,
            prev_token: first,
            finished: false,
        })
    }

    /// The token and position of the next forward step, while there is one.
    pub fn next_forward(&self) -> (r: Option<(u32, usize)>)
        requires
            self.wf(),
        ensures
            r is Some <==> (!self.finished && self.pos < self.steps),
            r matches Some(p) ==> p.0 == self.token && p.1 == self.pos,
    {
        if !self.finished && self.pos < self.steps {
            Some((self.token, self.pos))
        } else {
            None
        }
    }

    /// The next token after this step comes from the sampler, not the prompt.
    pub fn needs_sample(&self) -> (r: bool)
        requires
            self.wf(),
        ensures
            r == (self.pos + 1 >= self.prompt@.len()),
    {
        self.pos >= self.prompt.len() - 1
    }

    /// Records the forward step at `pos`: the next token is the prompt's while the
    /// prompt lasts, else `sampled`; BOS ends the stream, and from the second position
    /// on the current token is shown.
    pub fn advance(&mut self, sampled: u32) -> (r: Emit)
        requires
            old(self).wf(),
            !old(self).finished,
            old(self).pos < old(self).steps,
        ensures
            final(self).wf(),
            final(self).prompt == old(self).prompt,
            final(self).steps == old(self).steps,
            ({
                let next = if old(self).pos + 1 < old(self).prompt@.len() {
                    old(self).prompt@[old(self).pos + 1]
                } else {
                    sampled
                };
                if next == BOS {
                    &&& r == Emit::Stop
                    &&& final(self).finished
                    &&& final(self).pos == old(self).pos
                    &&& final(self).token == old(self).token
                    &&& final(self).prev_token == old(self).prev_token
                } else {
                    &&& r == (if old(self).pos > 0 {
                        Emit::Piece { token: old(self).token, prev_token: old(self).prev_token }
                    } else {
                        Emit::Nothing
                    })
                    &&& !final(self).finished
                    &&& final(self).pos == old(self).pos + 1
                    &&& final(self).token == next
                    &&& final(self).prev_token == old(self).token
                }
            }),
    {
        let next = if self.pos + 1 < self.prompt.len() {
            self.prompt[self.pos + 1]
        } else {
            sampled
        };
        if next == BOS {
            self.finished = true;
            return Emit::Stop;
        }
        let out = if self.pos > 0 {
            Emit::Piece { token: self.token, prev_token: self.prev_token }
        } else {
            Emit::Nothing
        };
        self.prev_token = self.token;
        self.token = next;
        self.pos = self.pos + 1;
        out
    }
}

} // verus!
