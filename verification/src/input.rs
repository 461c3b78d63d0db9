use vstd::prelude::*;
use std::collections::VecDeque;
use crate::readline::{Completion, Prompt, PromptState};

verus! {

/// Where the last mouse report of a pending key sequence points (column
/// and row, from 0).
#[derive(Clone, Copy, PartialEq, Eq, Structural)]
pub struct PendingMouseInfo {
    pub col: u8,
    pub row: u8,
}

/// What a byte of input leads to: nothing yet, the end of the input, the
/// mapping at an index to run, or a prompt's callback to run with the
/// prompt and its answer.
pub enum InputTickResponse<P> {
    Noop,
    EndOfInput,
    CallbackMapping(usize),
    CallbackPrompt { ps: String, then: P, ans: String },
}

/// What the terminal is to show after a byte: nothing, the text a prompt
/// printed, or the end of a prompt (the cursor hidden, the line cleared).
pub enum Echo {
    Nothing,
    Text(String),
    PromptDone,
}

/// The input side: bytes to read again first, the bytes of a key sequence
/// under way with the mappings it can still reach, the mappings (a byte
/// sequence and what it runs), and the prompt being typed in with its
/// callback.
pub struct Input<M, P, C> {
    pub recycle: VecDeque<u8>,
    pub pending: Vec<u8>,
    pub pending_mouse_info: PendingMouseInfo,
    pub mappings: Vec<(Vec<u8>, M)>,
    pub pending_reachable: Vec<usize>,
    pub prompt: Option<(Prompt<C>, Option<P>)>,
}

/// The byte sequences of the mappings.
pub open spec fn seqs_of<M>(maps: Seq<(Vec<u8>, M)>) -> Seq<Seq<u8>> {
    maps.map_values(|m: (Vec<u8>, M)| m.0@)
}

/// `p` ends with `ESC [ M` followed by `back` more bytes (a mouse report
/// under way).
pub open spec fn mouse_at(p: Seq<u8>, back: int) -> bool {
    let n = p.len() as int;
    &&& n >= back + 3
    &&& p[n - back - 3] == 0x1b
    &&& p[n - back - 2] == 0x5b
    &&& p[n - back - 1] == 0x4d
}

/// `b - 0x21`, or 0 below it (a mouse report's coordinate).
pub open spec fn coord(b: u8) -> u8 {
    if b >= 0x21 {
        (b - 0x21) as u8
    } else {
        0
    }
}

/// The indices, among the first `n`, of the sequences starting with `b`.
pub open spec fn first_reach(seqs: Seq<Seq<u8>>, b: u8, n: int) -> Seq<usize>
    decreases n,
{
    if n <= 0 {
        Seq::empty()
    } else {
        let r = first_reach(seqs, b, n - 1);
        if seqs[n - 1].len() > 0 && seqs[n - 1][0] == b {
            r.push((n - 1) as usize)
        } else {
            r
        }
    }
}

/// The indices of `reach` whose sequences start with `p`, in order.
pub open spec fn retained(seqs: Seq<Seq<u8>>, reach: Seq<usize>, p: Seq<u8>) -> Seq<usize>
    decreases reach.len(),
{
    if reach.len() == 0 {
        Seq::empty()
    } else {
        let r = retained(seqs, reach.drop_last(), p);
        if p.is_prefix_of(seqs[reach.last() as int]) {
            r.push(reach.last())
        } else {
            r
        }
    }
}

/// The first index from `k` on of a sequence equal to `q`.
pub open spec fn find_exact(seqs: Seq<Seq<u8>>, q: Seq<u8>, k: int) -> Option<int>
    decreases seqs.len() - k,
{
    if k < 0 || k >= seqs.len() {
        None
    } else if seqs[k] == q {
        Some(k)
    } else {
        find_exact(seqs, q, k + 1)
    }
}

/// The key-sequence state: the pending bytes, the mappings they can still
/// reach, the mouse report, and the bytes to read again.
pub struct MapState {
    pub pending: Seq<u8>,
    pub reach: Seq<usize>,
    pub mouse: PendingMouseInfo,
    pub recycled: Seq<u8>,
}

/// What a byte matched: nothing (yet), or the mapping at an index.
pub enum Matched {
    Nothing,
    Mapping(int),
}

/// After a byte: with nothing reachable any more, the mapping equal to the
/// bytes before the last one, if any, runs and the last byte is read again;
/// with one reachable mapping that is all typed, it runs; otherwise wait.
pub open spec fn settle(seqs: Seq<Seq<u8>>, s: MapState, b: u8) -> (MapState, Matched) {
    if s.reach.len() == 0 {
        match find_exact(seqs, s.pending.drop_last(), 0) {
            Some(k) => (MapState { pending: Seq::empty(), recycled: s.recycled.push(b), ..s }, Matched::Mapping(k)),
            None => (MapState { pending: Seq::empty(), ..s }, Matched::Nothing),
        }
    } else if s.reach.len() == 1 && seqs[s.reach[0] as int].len() == s.pending.len() {
        (MapState { pending: Seq::empty(), ..s }, Matched::Mapping(s.reach[0] as int))
    } else {
        (s, Matched::Nothing)
    }
}

/// Byte `b` of a key sequence: a first byte starts a sequence if some
/// mapping starts with it; in a mouse report, the two coordinates are kept
/// aside (the sequence holds spaces in their place); then see `settle`.
pub open spec fn map_step(seqs: Seq<Seq<u8>>, s: MapState, b: u8) -> (MapState, Matched) {
    if s.pending.len() == 0 {
        let reach = first_reach(seqs, b, seqs.len() as int);
        if reach.len() == 0 {
            (MapState { reach, ..s }, Matched::Nothing)
        } else {
            settle(seqs, MapState { pending: seq![b], reach, ..s }, b)
        }
    } else if mouse_at(s.pending, 0) {
        (MapState { pending: s.pending.push(b), ..s }, Matched::Nothing)
    } else if mouse_at(s.pending, 1) {
        (
            MapState { pending: s.pending.push(0x20), mouse: PendingMouseInfo { col: coord(b), ..s.mouse }, ..s },
            Matched::Nothing,
        )
    } else {
        let s1 = if mouse_at(s.pending, 2) {
            MapState { pending: s.pending.push(0x20), mouse: PendingMouseInfo { row: coord(b), ..s.mouse }, ..s }
        } else {
            MapState { pending: s.pending.push(b), ..s }
        };
        settle(seqs, MapState { reach: retained(seqs, s1.reach, s1.pending), ..s1 }, b)
    }
}

/// Whether `a` equals `b`.
fn bytes_eq(a: &[u8], b: &[u8]) -> (r: bool)
    ensures
        r == (a@ == b@),
{
    if a.len() != b.len() {
        return false;
    }
    let mut i: usize = 0;
    while i < a.len()
        invariant
            a@.len() == b@.len(),
            0 <= i <= a@.len(),
            forall|j: int| 0 <= j < i ==> a@[j] == b@[j],
        decreases a@.len() - i,
    {
        if a[i] != b[i] {
            return false;
        }
        i += 1;
    }
    assert(a@ =~= b@);
    true
}

/// Whether `p` starts `s`.
fn bytes_prefix(p: &[u8], s: &[u8]) -> (r: bool)
    ensures
        r == p@.is_prefix_of(s@),
{
    if p.len() > s.len() {
        return false;
    }
    let mut i: usize = 0;
    while i < p.len()
        invariant
            p@.len() <= s@.len(),
            0 <= i <= p@.len(),
            forall|j: int| 0 <= j < i ==> p@[j] == s@[j],
        decreases p@.len() - i,
    {
        if p[i] != s[i] {
            return false;
        }
        i += 1;
    }
    true
}

/// Whether `p` ends with `ESC [ M` and `back` more bytes.
fn mouse_at_exec(p: &Vec<u8>, back: usize) -> (r: bool)
    requires
        back <= 2,
    ensures
        r == mouse_at(p@, back as int),
{
    let n = p.len();
    n >= back + 3 && p[n - back - 3] == 0x1b && p[n - back - 2] == 0x5b && p[n - back - 1] == 0x4d
}

impl<M, P, C> Input<M, P, C> {
    /// The byte sequences of the mappings.
    pub open spec fn seqs(&self) -> Seq<Seq<u8>> {
        seqs_of(self.mappings@)
    }

    /// The key-sequence state.
    pub open spec fn map_state(&self) -> MapState {
        MapState {
            pending: self.pending@,
            reach: self.pending_reachable@,
            mouse: self.pending_mouse_info,
            recycled: self.recycle@,
        }
    }

    /// Whether the mappings a key sequence under way can reach are
    /// mappings.
    pub open spec fn reach_ok(&self) -> bool {
        self.pending@.len() > 0 ==> forall|i: int|
            0 <= i < self.pending_reachable@.len() ==> (#[trigger] self.pending_reachable@[i]) < self.mappings@.len()
    }

    /// Nothing pending, no mapping, no prompt.
    pub fn new() -> (r: Self)
        ensures
            r.recycle@.len() == 0,
            r.pending@.len() == 0,
            r.pending_mouse_info == (PendingMouseInfo { col: 0, row: 0 }),
            r.mappings@.len() == 0,
            r.pending_reachable@.len() == 0,
            r.prompt is None,
    {
        Input {
            recycle: VecDeque::new(),
            pending: Vec::new(),
            pending_mouse_info: PendingMouseInfo { col: 0, row: 0 },
            mappings: Vec::new(),
            pending_reachable: Vec::new(),
            prompt: None,
        }
    }

    /// The index of the first mapping of sequence `q`, if any.
    fn find_mapping(&self, q: &[u8]) -> (r: Option<usize>)
        ensures
            match r {
                Some(k) => find_exact(self.seqs(), q@, 0) == Some(k as int) && k < self.mappings@.len(),
                None => find_exact(self.seqs(), q@, 0) is None,
            },
    {
        proof {
            lemma_find_exact_range(self.seqs(), q@, 0);
        }
        let mut k: usize = 0;
        while k < self.mappings.len()
            invariant
                0 <= k <= self.mappings@.len(),
                find_exact(self.seqs(), q@, 0) == find_exact(self.seqs(), q@, k as int),
            decreases self.mappings@.len() - k,
        {
            if bytes_eq(self.mappings[k].0.as_slice(), q) {
                return Some(k);
            }
            k += 1;
        }
        None
    }

    /// See `settle`; gives the mapping to run.
    fn settle_exec(&mut self, b: u8) -> (r: Option<usize>)
        requires
            old(self).pending@.len() > 0,
            forall|i: int|
                0 <= i < old(self).pending_reachable@.len() ==> (#[trigger] old(self).pending_reachable@[i])
                    < old(self).mappings@.len(),
        ensures
            ({
                let (s2, m) = settle(old(self).seqs(), old(self).map_state(), b);
                &&& final(self).map_state() == s2
                &&& match m {
                    Matched::Mapping(k) => r == Some(k as usize),
                    Matched::Nothing => r is None,
                }
            }),
            final(self).mappings == old(self).mappings,
            final(self).prompt == old(self).prompt,
            final(self).reach_ok(),
    {
        if self.pending_reachable.len() == 0 {
            let n = self.pending.len();
            let before = self.pending.as_slice().split_at(n - 1).0;
            assert(before@ =~= self.pending@.drop_last());
            match self.find_mapping(before) {
                Some(k) => {
                    self.pending.clear();
                    self.recycle.push_back(b);
                    Some(k)
                },
                None => {
                    self.pending.clear();
                    None
                },
            }
        } else if self.pending_reachable.len() == 1 && self.mappings[self.pending_reachable[0]].0.len()
            == self.pending.len() {
            let k = self.pending_reachable[0];
            self.pending.clear();
            Some(k)
        } else {
            None
        }
    }

    /// The reachable mappings whose sequences start with the pending bytes.
    fn retain_reach(&mut self)
        requires
            forall|i: int|
                0 <= i < old(self).pending_reachable@.len() ==> (#[trigger] old(self).pending_reachable@[i])
                    < old(self).mappings@.len(),
        ensures
            final(self).pending_reachable@ == retained(old(self).seqs(), old(self).pending_reachable@, old(self).pending@),
            forall|i: int|
                0 <= i < final(self).pending_reachable@.len() ==> (#[trigger] final(self).pending_reachable@[i])
                    < final(self).mappings@.len(),
            final(self).pending == old(self).pending,
            final(self).mappings == old(self).mappings,
            final(self).recycle == old(self).recycle,
            final(self).pending_mouse_info == old(self).pending_mouse_info,
            final(self).prompt == old(self).prompt,
    {
        let ghost reach = self.pending_reachable@;
        let mut kept: Vec<usize> = Vec::new();
        let mut i: usize = 0;
        while i < self.pending_reachable.len()
            invariant
                reach == self.pending_reachable@,
                0 <= i <= reach.len(),
                forall|j: int| 0 <= j < reach.len() ==> (#[trigger] reach[j]) < self.mappings@.len(),
                kept@ == retained(self.seqs(), reach.subrange(0, i as int), self.pending@),
                forall|j: int| 0 <= j < kept@.len() ==> (#[trigger] kept@[j]) < self.mappings@.len(),
            decreases reach.len() - i,
        {
            let k = self.pending_reachable[i];
            let ghost sub = reach.subrange(0, i + 1);
            assert(sub.drop_last() =~= reach.subrange(0, i as int));
            assert(self.seqs()[k as int] == self.mappings@[k as int].0@);
            if bytes_prefix(self.pending.as_slice(), self.mappings[k].0.as_slice()) {
                kept.push(k);
            }
            i += 1;
        }
        assert(reach.subrange(0, i as int) =~= reach);
        self.pending_reachable = kept;
    }

    /// Take byte `b` of a key sequence (see `map_step`); gives the mapping
    /// to run.
    fn map_byte(&mut self, b: u8) -> (r: Option<usize>)
        requires
            old(self).reach_ok(),
            forall|k: int| 0 <= k < old(self).mappings@.len() ==> (#[trigger] old(self).mappings@[k]).0@.len() > 0,
        ensures
            ({
                let (s2, m) = map_step(old(self).seqs(), old(self).map_state(), b);
                &&& final(self).map_state() == s2
                &&& match m {
                    Matched::Mapping(k) => r == Some(k as usize),
                    Matched::Nothing => r is None,
                }
            }),
            final(self).mappings == old(self).mappings,
            final(self).prompt == old(self).prompt,
            final(self).reach_ok(),
    {
        let ghost seqs = self.seqs();
        if self.pending.len() == 0 {
            let mut reach: Vec<usize> = Vec::new();
            let mut k: usize = 0;
            while k < self.mappings.len()
                invariant
                    seqs == self.seqs(),
                    0 <= k <= self.mappings@.len(),
                    forall|j: int| 0 <= j < self.mappings@.len() ==> (#[trigger] self.mappings@[j]).0@.len() > 0,
                    reach@ == first_reach(seqs, b, k as int),
                    forall|j: int| 0 <= j < reach@.len() ==> (#[trigger] reach@[j]) < self.mappings@.len(),
                decreases self.mappings@.len() - k,
            {
                assert(seqs[k as int] == self.mappings@[k as int].0@);
                if self.mappings[k].0[0] == b {
                    reach.push(k);
                }
                k += 1;
            }
            self.pending_reachable = reach;
            if self.pending_reachable.len() == 0 {
                return None;
            }
            self.pending.push(b);
            assert(self.pending@ =~= seq![b]);
            return self.settle_exec(b);
        }
        if mouse_at_exec(&self.pending, 0) {
            self.pending.push(b);
            return None;
        }
        let c: u8 = if b >= 0x21 {
            b - 0x21
        } else {
            0
        };
        if mouse_at_exec(&self.pending, 1) {
            self.pending.push(0x20);
            self.pending_mouse_info.col = c;
            return None;
        }
        if mouse_at_exec(&self.pending, 2) {
            self.pending.push(0x20);
            self.pending_mouse_info.row = c;
        } else {
            self.pending.push(b);
        }
        self.retain_reach();
        self.settle_exec(b)
    }

    /// The next byte to read again, if any (the input is read only when
    /// there is none).
    pub fn next_recycled(&mut self) -> (r: Option<u8>)
        ensures
            match r {
                Some(b) => old(self).recycle@.len() > 0 && b == old(self).recycle@[0] && final(self).recycle@
                    == old(self).recycle@.drop_first(),
                None => old(self).recycle@.len() == 0 && final(self).recycle@ == old(self).recycle@,
            },
            final(self).pending == old(self).pending,
            final(self).pending_mouse_info == old(self).pending_mouse_info,
            final(self).mappings == old(self).mappings,
            final(self).pending_reachable == old(self).pending_reachable,
            final(self).prompt == old(self).prompt,
    {
        let r = self.recycle.pop_front();
        proof {
            if r is Some {
                assert(old(self).recycle@.subrange(1, old(self).recycle@.len() as int) =~= old(self).recycle@.drop_first());
            }
        }
        r
    }
}

impl<M, P, C: Completion> Input<M, P, C> {
    /// Whether byte `byte` can be taken: a prompt must be able to take it,
    /// otherwise the mappings have sequences and a sequence under way
    /// reaches mappings (see `reach_ok`).
    pub open spec fn tick_ok(&self, byte: Option<u8>) -> bool {
        match byte {
            None => true,
            Some(b) => match self.prompt {
                Some(pt) => pt.0.wf() && pt.0.feed_ok(b),
                None => {
                    &&& self.reach_ok()
                    &&& forall|k: int| 0 <= k < self.mappings@.len() ==> (#[trigger] self.mappings@[k]).0@.len() > 0
                },
            },
        }
    }

    /// Take the next byte of input (`None` at its end): a prompt being
    /// typed in takes it (see `Prompt::feed`), otherwise it goes on a key
    /// sequence (see `map_step`). Gives what to run, and what to show.
    pub fn tick(&mut self, byte: Option<u8>) -> (r: (InputTickResponse<P>, Echo))
        requires
            old(self).tick_ok(byte),
        ensures
            final(self).mappings == old(self).mappings,
            match byte {
                None => r.0 is EndOfInput && r.1 is Nothing && *final(self) == *old(self),
                Some(b) => match old(self).prompt {
                    None => {
                        let (s2, m) = map_step(old(self).seqs(), old(self).map_state(), b);
                        &&& final(self).map_state() == s2
                        &&& final(self).prompt is None
                        &&& final(self).reach_ok()
                        &&& r.1 is Nothing
                        &&& match m {
                            Matched::Mapping(k) => r.0 == InputTickResponse::<P>::CallbackMapping(k as usize),
                            Matched::Nothing => r.0 is Noop,
                        }
                    },
                    Some(pt) => {
                        &&& final(self).map_state() == old(self).map_state()
                        &&& exists|st: PromptState<C>|
                            #[trigger] pt.0.fed(b, st) && match st {
                                PromptState::Again(up, np) => {
                                    &&& final(self).prompt == Some((np, pt.1))
                                    &&& r.0 is Noop
                                    &&& r.1 == Echo::Text(up)
                                },
                                PromptState::Abort => final(self).prompt is None && r.0 is Noop && r.1 is PromptDone,
                                PromptState::Final(ans) => {
                                    &&& final(self).prompt is None
                                    &&& r.1 is PromptDone
                                    &&& match pt.1 {
                                        Some(then) => r.0 == (InputTickResponse::CallbackPrompt { ps: pt.0.ps, then, ans }),
                                        None => r.0 is Noop,
                                    }
                                },
                            }
                    },
                },
            },
    {
        let b = match byte {
            Some(b) => b,
            None => {
                return (InputTickResponse::EndOfInput, Echo::Nothing);
            },
        };
        match self.prompt.take() {
            Some((prompt, then)) => {
                let ps = prompt.ps.clone();
                let st = prompt.feed(b);
                let ghost g = st;
                match st {
                    PromptState::Again(up, np) => {
                        self.prompt = Some((np, then));
                        (InputTickResponse::Noop, Echo::Text(up))
                    },
                    PromptState::Abort => (InputTickResponse::Noop, Echo::PromptDone),
                    PromptState::Final(ans) => match then {
                        Some(then) => (InputTickResponse::CallbackPrompt { ps, then, ans }, Echo::PromptDone),
                        None => (InputTickResponse::Noop, Echo::PromptDone),
                    },
                }
            },
            None => {
                match self.map_byte(b) {
                    Some(k) => (InputTickResponse::CallbackMapping(k), Echo::Nothing),
                    None => (InputTickResponse::Noop, Echo::Nothing),
                }
            },
        }
    }
}

/// `r` with its first `old` replaced by `new`.
pub open spec fn replace_first(r: Seq<usize>, old: usize, new: usize) -> Seq<usize>
    decreases r.len(),
{
    if r.len() == 0 {
        r
    } else if r[0] == old {
        r.update(0, new)
    } else {
        seq![r[0]] + replace_first(r.drop_first(), old, new)
    }
}

impl<M, P, C> Input<M, P, C> {
    /// Read the bytes `seq` again, after those already to read again.
    pub fn recycle(&mut self, seq: Vec<u8>)
        ensures
            final(self).recycle@ == old(self).recycle@ + seq@,
            final(self).pending == old(self).pending,
            final(self).pending_mouse_info == old(self).pending_mouse_info,
            final(self).mappings == old(self).mappings,
            final(self).pending_reachable == old(self).pending_reachable,
            final(self).prompt == old(self).prompt,
    {
        let mut i: usize = 0;
        let ghost base = self.recycle@;
        while i < seq.len()
            invariant
                0 <= i <= seq@.len(),
                self.recycle@ == base + seq@.subrange(0, i as int),
                self.pending == old(self).pending,
                self.pending_mouse_info == old(self).pending_mouse_info,
                self.mappings == old(self).mappings,
                self.pending_reachable == old(self).pending_reachable,
                self.prompt == old(self).prompt,
            decreases seq@.len() - i,
        {
            self.recycle.push_back(seq[i]);
            assert(seq@.subrange(0, i + 1) =~= seq@.subrange(0, i as int).push(seq@[i as int]));
            i += 1;
        }
        assert(seq@.subrange(0, i as int) =~= seq@);
    }

    /// Whether there are bytes to read again.
    pub fn has_recycle(&self) -> (b: bool)
        ensures
            b == (self.recycle@.len() > 0),
    {
        self.recycle.len() > 0
    }

    /// The bytes of the key sequence under way.
    pub fn get_pending(&self) -> (r: &[u8])
        ensures
            r@ == self.pending@,
    {
        self.pending.as_slice()
    }

    /// Where the last mouse report points.
    pub fn get_pending_mouse_info(&self) -> (r: PendingMouseInfo)
        ensures
            r == self.pending_mouse_info,
    {
        self.pending_mouse_info
    }

    /// The prompt being typed in, if any.
    pub fn get_prompt(&self) -> (r: Option<&Prompt<C>>)
        ensures
            match self.prompt {
                Some(pt) => r == Some(&pt.0),
                None => r is None,
            },
    {
        match &self.prompt {
            Some(pt) => Some(&pt.0),
            None => None,
        }
    }

    /// Start typing in `prompt`; `then` runs with the answer.
    pub fn set_prompt(&mut self, prompt: Prompt<C>, then: Option<P>)
        ensures
            final(self).prompt == Some((prompt, then)),
            final(self).map_state() == old(self).map_state(),
            final(self).mappings == old(self).mappings,
    {
        self.prompt = Some((prompt, then));
    }

    /// Map the byte sequence `sequence` (ignored when empty) to `action`; a
    /// key sequence under way that starts it can now reach it.
    pub fn add_mapping(&mut self, sequence: Vec<u8>, action: M)
        ensures
            sequence@.len() == 0 ==> *final(self) == *old(self),
            sequence@.len() > 0 ==> {
                &&& final(self).mappings@ == old(self).mappings@.push((sequence, action))
                &&& final(self).pending_reachable@ == if old(self).pending@.len() > 0 && old(self).pending@.is_prefix_of(
                    sequence@,
                ) {
                    old(self).pending_reachable@.push(old(self).mappings@.len() as usize)
                } else {
                    old(self).pending_reachable@
                }
                &&& final(self).pending == old(self).pending
                &&& final(self).recycle == old(self).recycle
                &&& final(self).pending_mouse_info == old(self).pending_mouse_info
                &&& final(self).prompt == old(self).prompt
            },
            old(self).reach_ok() ==> final(self).reach_ok(),
    {
        if sequence.len() == 0 {
            return;
        }
        if self.pending.len() > 0 && bytes_prefix(self.pending.as_slice(), sequence.as_slice()) {
            let n = self.mappings.len();
            self.pending_reachable.push(n);
        }
        self.mappings.push((sequence, action));
    }

    /// What the first mapping of `sequence` runs, if any.
    pub fn get_mapping(&self, sequence: Vec<u8>) -> (r: Option<&M>)
        ensures
            match find_exact(self.seqs(), sequence@, 0) {
                Some(k) => r matches Some(m) && *m == self.mappings@[k].1,
                None => r is None,
            },
    {
        proof {
            lemma_find_exact_range(self.seqs(), sequence@, 0);
        }
        match self.find_mapping(sequence.as_slice()) {
            Some(k) => Some(&self.mappings[k].1),
            None => None,
        }
    }

    /// Remove the first mapping of `sequence` and give what it ran; the last
    /// mapping takes its place (and its place among those reachable).
    pub fn pop_mapping(&mut self, sequence: Vec<u8>) -> (r: Option<M>)
        ensures
            match find_exact(old(self).seqs(), sequence@, 0) {
                Some(k) => 0 <= k < old(self).mappings@.len() && {
                    let last = (old(self).mappings@.len() - 1) as usize;
                    &&& r == Some(old(self).mappings@[k].1)
                    &&& final(self).mappings@ == old(self).mappings@.update(k, old(self).mappings@.last()).drop_last()
                    &&& final(self).pending_reachable@ == replace_first(old(self).pending_reachable@, last, k as usize)
                },
                None => r is None && final(self).mappings == old(self).mappings && final(self).pending_reachable
                    == old(self).pending_reachable,
            },
            final(self).pending == old(self).pending,
            final(self).recycle == old(self).recycle,
            final(self).pending_mouse_info == old(self).pending_mouse_info,
            final(self).prompt == old(self).prompt,
    {
        let k = match self.find_mapping(sequence.as_slice()) {
            Some(k) => k,
            None => {
                return None;
            },
        };
        proof {
            lemma_find_exact_range(old(self).seqs(), sequence@, 0);
        }
        let last = self.mappings.len() - 1;
        let ghost reach = self.pending_reachable@;
        let mut i: usize = 0;
        while i < self.pending_reachable.len() && self.pending_reachable[i] != last
            invariant
                reach == self.pending_reachable@,
                0 <= i <= reach.len(),
                forall|j: int| 0 <= j < i ==> reach[j] != last,
            decreases reach.len() - i,
        {
            i += 1;
        }
        if i < self.pending_reachable.len() {
            self.pending_reachable.set(i, k);
            proof {
                lemma_replace_first_at(reach, last, k, i as int);
            }
        } else {
            proof {
                lemma_replace_first_none(reach, last, k);
            }
        }
        let (_, action) = self.mappings.swap_remove(k);
        Some(action)
    }
}

/// What `find_exact` finds is a sequence equal to the one looked for.
proof fn lemma_find_exact_range(seqs: Seq<Seq<u8>>, q: Seq<u8>, k: int)
    ensures
        find_exact(seqs, q, k) matches Some(j) ==> 0 <= k <= j < seqs.len() && seqs[j] == q,
    decreases seqs.len() - k,
{
    if 0 <= k < seqs.len() && seqs[k] != q {
        lemma_find_exact_range(seqs, q, k + 1);
    }
}

/// Replacing the first `old`, found at `i`.
pub proof fn lemma_replace_first_at(r: Seq<usize>, old: usize, new: usize, i: int)
    requires
        0 <= i < r.len(),
        r[i] == old,
        forall|j: int| 0 <= j < i ==> r[j] != old,
    ensures
        replace_first(r, old, new) == r.update(i, new),
    decreases r.len(),
{
    if i > 0 {
        lemma_replace_first_at(r.drop_first(), old, new, i - 1);
        assert(seq![r[0]] + r.drop_first().update(i - 1, new) =~= r.update(i, new));
    }
}

/// With no `old` in `r`, nothing is replaced.
pub proof fn lemma_replace_first_none(r: Seq<usize>, old: usize, new: usize)
    requires
        forall|j: int| 0 <= j < r.len() ==> r[j] != old,
    ensures
        replace_first(r, old, new) == r,
    decreases r.len(),
{
    if r.len() > 0 {
        lemma_replace_first_none(r.drop_first(), old, new);
        assert(seq![r[0]] + r.drop_first() =~= r);
    }
}

/// No mapping among the first `n` starting with `b`: none is reached.
proof fn lemma_first_reach_none(seqs: Seq<Seq<u8>>, b: u8, n: int)
    requires
        n <= seqs.len(),
        forall|j: int| 0 <= j < n ==> !(#[trigger] seqs[j].len() > 0 && seqs[j][0] == b),
    ensures
        first_reach(seqs, b, n).len() == 0,
    decreases n,
{
    if n > 0 {
        lemma_first_reach_none(seqs, b, n - 1);
    }
}

/// Only mapping `i` starting with `b`: it alone is reached, once `n`
/// passes it.
proof fn lemma_first_reach_one(seqs: Seq<Seq<u8>>, b: u8, n: int, i: int)
    requires
        0 <= i < seqs.len() <= usize::MAX,
        n <= seqs.len(),
        seqs[i].len() > 0 && seqs[i][0] == b,
        forall|j: int| 0 <= j < seqs.len() && j != i ==> !(#[trigger] seqs[j].len() > 0 && seqs[j][0] == b),
    ensures
        first_reach(seqs, b, n) == (if i < n { seq![i as usize] } else { Seq::<usize>::empty() }),
    decreases n,
{
    if n > 0 {
        lemma_first_reach_one(seqs, b, n - 1, i);
        if n - 1 == i {
            assert(Seq::<usize>::empty().push(i as usize) =~= seq![i as usize]);
        }
    }
}

/// The first byte of a key sequence: where no mapping starts with it,
/// nothing matches and nothing stays pending; where exactly one mapping
/// starts with it and is that one byte, that mapping matches at once and
/// nothing stays pending.
pub proof fn first_byte_of_sequence(seqs: Seq<Seq<u8>>, s: MapState, b: u8, i: int)
    requires
        s.pending.len() == 0,
        seqs.len() <= usize::MAX,
    ensures
        (forall|j: int| 0 <= j < seqs.len() ==> !(#[trigger] seqs[j].len() > 0 && seqs[j][0] == b)) ==> (map_step(
            seqs,
            s,
            b,
        ).1 is Nothing && map_step(seqs, s, b).0.pending.len() == 0),
        (0 <= i < seqs.len() && seqs[i] == seq![b] && forall|j: int|
            0 <= j < seqs.len() && j != i ==> !(#[trigger] seqs[j].len() > 0 && seqs[j][0] == b)) ==> (map_step(
            seqs,
            s,
            b,
        ).1 == Matched::Mapping(i) && map_step(seqs, s, b).0.pending.len() == 0),
{
    let n = seqs.len() as int;
    if forall|j: int| 0 <= j < seqs.len() ==> !(#[trigger] seqs[j].len() > 0 && seqs[j][0] == b) {
        lemma_first_reach_none(seqs, b, n);
    }
    if 0 <= i < seqs.len() && seqs[i] == seq![b] && forall|j: int|
        0 <= j < seqs.len() && j != i ==> !(#[trigger] seqs[j].len() > 0 && seqs[j][0] == b) {
        assert(seqs[i].len() == 1 && seqs[i][0] == b);
        lemma_first_reach_one(seqs, b, n, i);
    }
}

} // verus!
