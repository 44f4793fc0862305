use vstd::prelude::*;
use crate::codec::{DccOffer, decode_dcc_send, dcc_payload, offer_wf, OfferView};
use crate::irc::{IrcLine, direct_text, direct_text_of, encode_request, request_line};

verus! {

/// Why an item failed.
#[derive(Debug, Clone, Copy, PartialEq, Eq, Structural)]
pub enum FailReason {
    Timeout,
    BadOffer,
    ConnectError,
    SizeMismatch,
    IoError,
    SessionLost,
}

/// The life of one item of a batch.
#[derive(Debug, Clone, Copy, PartialEq, Eq, Structural)]
pub enum ItemState {
    Pending,
    OfferWaiting,
    Transferring,
    Completed,
    Failed(FailReason),
}

pub open spec fn is_terminal(s: ItemState) -> bool {
    s is Completed || s is Failed
}

/// One package of a batch: the bot that hosts it and its number.
#[derive(Debug, Clone)]
pub struct Item {
    pub bot: Vec<u8>,
    pub package: u64,
}

/// What the coordinator asks its runner to do.
#[derive(Debug)]
pub enum Action {
    /// Send the request line of this item on the control connection.
    Request(usize),
    /// Dial the offer's peer and stream the item's file.
    StartTransfer(usize, DccOffer),
    /// The item reached this terminal state: emit its closing progress event
    /// and its status marker.
    Finished(usize, ItemState),
    /// Every item is terminal: emit the overall marker.
    AllDone,
}

pub open spec fn requested_items(a: Seq<Action>) -> Seq<nat>
    decreases a.len(),
{
    if a.len() == 0 {
        Seq::empty()
    } else {
        requested_items(a.drop_last()) + match a.last() {
            Action::Request(k) => seq![k as nat],
            _ => Seq::empty(),
        }
    }
}

pub open spec fn finished_items(a: Seq<Action>) -> Seq<nat>
    decreases a.len(),
{
    if a.len() == 0 {
        Seq::empty()
    } else {
        finished_items(a.drop_last()) + match a.last() {
            Action::Finished(k, _) => seq![k as nat],
            _ => Seq::empty(),
        }
    }
}

pub open spec fn all_done_count(a: Seq<Action>) -> nat
    decreases a.len(),
{
    if a.len() == 0 {
        0
    } else {
        all_done_count(a.drop_last()) + if a.last() is AllDone {
            1nat
        } else {
            0nat
        }
    }
}

proof fn lemma_push_action(a: Seq<Action>, x: Action)
    ensures
        requested_items(a.push(x)) == requested_items(a) + match x {
            Action::Request(k) => seq![k as nat],
            _ => Seq::<nat>::empty(),
        },
        finished_items(a.push(x)) == finished_items(a) + match x {
            Action::Finished(k, _) => seq![k as nat],
            _ => Seq::<nat>::empty(),
        },
        all_done_count(a.push(x)) == all_done_count(a) + if x is AllDone {
            1nat
        } else {
            0nat
        },
{
    assert(a.push(x).drop_last() =~= a);
}

/// The batch as the coordinator sees it.
pub struct BatchView {
    pub bots: Seq<Seq<u8>>,
    pub packages: Seq<u64>,
    pub nick: Seq<u8>,
    pub states: Seq<ItemState>,
    /// The item whose offer is awaited; the batch length once all are issued.
    pub current: nat,
    /// Requests of the current item repeated so far.
    pub retries: nat,
    pub max_retries: nat,
    /// A malformed offer came for the current item.
    pub bad_offer: bool,
    pub done: bool,
    /// Every request issued so far, by item index.
    pub requests: Seq<nat>,
    /// Every item that reached a terminal state, in that order.
    pub finished: Seq<nat>,
    /// How many overall markers were emitted.
    pub all_done: nat,
}

/// Sequences the requests of a batch over the control connection and keeps
/// the state of each item; the transfers themselves run elsewhere.
pub struct Coordinator {
    items: Vec<Item>,
    nick: Vec<u8>,
    states: Vec<ItemState>,
    current: usize,
    retries: u64,
    max_retries: u64,
    bad_offer: bool,
    done: bool,
    requests: Ghost<Seq<nat>>,
    finished: Ghost<Seq<nat>>,
    all_done: Ghost<nat>,
}

pub open spec fn all_terminal(s: Seq<ItemState>) -> bool {
    forall|j: int| 0 <= j < s.len() ==> is_terminal(#[trigger] s[j])
}

/// Requests go out item after item: the log starts at the first item, never
/// goes back, and moves on by at most one item at a time.
pub open spec fn in_item_order(r: Seq<nat>) -> bool {
    &&& r.len() > 0 ==> r[0] == 0
    &&& forall|i: int, j: int| 0 <= i <= j < r.len() ==> r[i] <= r[j]
    &&& forall|i: int| 0 <= i < r.len() - 1 ==> #[trigger] r[i + 1] <= r[i] + 1
}

impl BatchView {
    pub open spec fn len(self) -> nat {
        self.states.len()
    }

    pub open spec fn waiting(self) -> bool {
        self.current < self.len()
    }

    /// Everything the invariant says but when the batch is done.
    pub open spec fn core_wf(self) -> bool {
        let n = self.len();
        &&& self.bots.len() == n && self.packages.len() == n
        &&& self.current <= n
        &&& self.retries <= self.max_retries
        &&& forall|j: int| 0 <= j < self.current ==> !(#[trigger] self.states[j] is Pending)
            && !(self.states[j] is OfferWaiting)
        &&& self.current < n ==> self.states[self.current as int] is OfferWaiting
        &&& forall|j: int| self.current < j < n ==> #[trigger] self.states[j] is Pending
        &&& self.finished.no_duplicates()
        &&& forall|i: int| 0 <= i < self.finished.len() ==> #[trigger] self.finished[i] < n
        &&& forall|j: int| 0 <= j < n ==> (self.finished.contains(j as nat) <==> is_terminal(#[trigger] self.states[j]))
        &&& in_item_order(self.requests)
        &&& forall|i: int| 0 <= i < self.requests.len() ==> #[trigger] self.requests[i] <= self.current
            && self.requests[i] < n
        &&& self.current < n ==> self.requests.len() > 0 && self.requests.last() == self.current
        &&& self.all_done == if self.done { 1nat } else { 0nat }
    }

    pub open spec fn complete(self) -> bool {
        self.current == self.len() && all_terminal(self.states)
    }

    pub open spec fn wf(self) -> bool {
        self.core_wf() && self.done == self.complete()
    }

    /// How `next` follows from `self` through `actions`: the logs record the
    /// actions, and the batch's fixed parts stay.
    pub open spec fn logs_follow(self, next: BatchView, actions: Seq<Action>) -> bool {
        &&& next.requests == self.requests + requested_items(actions)
        &&& next.finished == self.finished + finished_items(actions)
        &&& next.all_done == self.all_done + all_done_count(actions)
        &&& next.bots == self.bots && next.packages == self.packages && next.nick == self.nick
        &&& next.max_retries == self.max_retries
    }
}

impl View for Coordinator {
    type V = BatchView;

    closed spec fn view(&self) -> BatchView {
        BatchView {
            bots: Seq::new(self.items@.len(), |i: int| self.items@[i].bot@),
            packages: Seq::new(self.items@.len(), |i: int| self.items@[i].package),
            nick: self.nick@,
            states: self.states@,
            current: self.current as nat,
            retries: self.retries as nat,
            max_retries: self.max_retries as nat,
            bad_offer: self.bad_offer,
            done: self.done,
            requests: self.requests@,
            finished: self.finished@,
            all_done: self.all_done@,
        }
    }
}

impl Coordinator {
    /// The line that requests item `k`.
    pub fn request_bytes(&self, k: usize) -> (r: Vec<u8>)
        requires
            k < self@.bots.len(),
        ensures
            r@ == request_line(self@.bots[k as int], self@.packages[k as int] as nat),
    {
        proof { self.lemma_lens(); }
        encode_request(self.items[k].bot.as_slice(), self.items[k].package)
    }

    proof fn lemma_lens(&self)
        ensures
            self@.bots.len() == self.items@.len(),
            self@.packages.len() == self.items@.len(),
            self@.states.len() == self.states@.len(),
            self@.current == self.current,
    {
    }

    fn emit(&mut self, actions: &mut Vec<Action>, a: Action, Ghost(base): Ghost<BatchView>)
        requires
            base.logs_follow(old(self)@, old(actions)@),
        ensures
            base.logs_follow(final(self)@, final(actions)@),
            final(actions)@ == old(actions)@.push(a),
            final(self)@ == (BatchView {
                requests: final(self)@.requests,
                finished: final(self)@.finished,
                all_done: final(self)@.all_done,
                ..old(self)@
            }),
            final(self).items@ == old(self).items@,
            final(self).states@ == old(self).states@,
            final(self).current == old(self).current,
            final(self)@.requests == old(self)@.requests + match a {
                Action::Request(k) => seq![k as nat],
                _ => Seq::<nat>::empty(),
            },
            final(self)@.finished == old(self)@.finished + match a {
                Action::Finished(k, _) => seq![k as nat],
                _ => Seq::<nat>::empty(),
            },
            final(self)@.all_done == old(self)@.all_done + if a is AllDone {
                1nat
            } else {
                0nat
            },
    {
        proof {
            lemma_push_action(old(actions)@, a);
            match a {
                Action::Request(k) => {
                    assert(self.requests@.push(k as nat) =~= self.requests@ + seq![k as nat]);
                    assert(self.finished@ =~= self.finished@ + Seq::<nat>::empty());
                    self.requests = Ghost(self.requests@.push(k as nat));
                },
                Action::Finished(k, _) => {
                    assert(self.finished@.push(k as nat) =~= self.finished@ + seq![k as nat]);
                    assert(self.requests@ =~= self.requests@ + Seq::<nat>::empty());
                    self.finished = Ghost(self.finished@.push(k as nat));
                },
                _ => {
                    assert(self.finished@ =~= self.finished@ + Seq::<nat>::empty());
                    assert(self.requests@ =~= self.requests@ + Seq::<nat>::empty());
                    if a is AllDone {
                        self.all_done = Ghost(self.all_done@ + 1);
                    }
                },
            }
        }
        actions.push(a);
        proof {
            assert(base.requests + requested_items(actions@) =~= base.requests + requested_items(old(actions)@) + match a {
                Action::Request(k) => seq![k as nat],
                _ => Seq::<nat>::empty(),
            });
            assert(base.finished + finished_items(actions@) =~= base.finished + finished_items(old(actions)@) + match a {
                Action::Finished(k, _) => seq![k as nat],
                _ => Seq::<nat>::empty(),
            });
        }
    }

    fn settle(&mut self, actions: &mut Vec<Action>, Ghost(base): Ghost<BatchView>)
        requires
            old(self)@.core_wf(),
            old(self).items@.len() == old(self).states@.len(),
            old(self)@.done ==> old(self)@.complete(),
            base.logs_follow(old(self)@, old(actions)@),
        ensures
            final(self)@.wf(),
            final(self).items@.len() == final(self).states@.len(),
            base.logs_follow(final(self)@, final(actions)@),
            final(self)@ == (BatchView {
                done: final(self)@.done,
                all_done: final(self)@.all_done,
                ..old(self)@
            }),
            final(actions)@ == if !old(self)@.done && old(self)@.complete() {
                old(actions)@.push(Action::AllDone)
            } else {
                old(actions)@
            },
    {
        proof { self.lemma_lens(); }
        if self.done || self.current < self.states.len() {
            return;
        }
        let mut j: usize = 0;
        while j < self.states.len()
            invariant
                0 <= j <= self.states@.len(),
                forall|i: int| 0 <= i < j ==> is_terminal(#[trigger] self.states@[i]),
                self@ == old(self)@,
                self.items@.len() == self.states@.len(),
                self@.core_wf(),
                !self@.done,
                self@.current == self@.len(),
                actions@ == old(actions)@,
                base.logs_follow(self@, actions@),
            decreases self.states@.len() - j,
        {
            match self.states[j] {
                ItemState::Completed | ItemState::Failed(_) => {},
                _ => {
                    return;
                },
            }
            j = j + 1;
        }
        self.emit(actions, Action::AllDone, Ghost(base));
        self.done = true;
    }

    #[verifier::rlimit(80)]
    /// Moves past the current item, which now stands at `next`: emits `first`,
    /// requests the following item, and settles the batch.
    fn advance(&mut self, actions: &mut Vec<Action>, next: ItemState, first: Action, Ghost(base): Ghost<BatchView>)
        requires
            old(self)@.wf(),
            old(self).items@.len() == old(self).states@.len(),
            old(self)@.waiting(),
            base.logs_follow(old(self)@, old(actions)@),
            match first {
                Action::StartTransfer(k, _) => k == old(self)@.current && next is Transferring,
                Action::Finished(k, t) => k == old(self)@.current && t == next && is_terminal(next),
                _ => false,
            },
        ensures
            final(self)@.wf(),
            final(self).items@.len() == final(self).states@.len(),
            base.logs_follow(final(self)@, final(actions)@),
            ({
                let o = old(self)@;
                let f = final(self)@;
                let c = o.current as int;
                let s1 = o.states.update(c, next);
                let s2 = if c + 1 < o.len() { s1.update(c + 1, ItemState::OfferWaiting) } else { s1 };
                let a1 = old(actions)@.push(first);
                let a2 = if c + 1 < o.len() { a1.push(Action::Request((c + 1) as usize)) } else { a1 };
                &&& f.states == s2
                &&& f.current == o.current + 1
                &&& f.retries == 0
                &&& !f.bad_offer
                &&& final(actions)@ == if f.done { a2.push(Action::AllDone) } else { a2 }
            }),
    {
        proof { self.lemma_lens(); }
        let ghost o = self@;
        let c = self.current;
        assert(c < self.states.len());
        self.emit(actions, first, Ghost(base));
        self.states.set(c, next);
        self.current = c + 1;
        self.retries = 0;
        self.bad_offer = false;
        let ghost mid = self@;
        proof {
            let f = self.finished@;
            if next is Transferring {
                assert(f == o.finished);
            } else {
                assert(f == o.finished.push(c as nat));
                assert(!o.finished.contains(c as nat));
                assert forall|x: int, y: int| 0 <= x < f.len() && 0 <= y < f.len() && x != y implies f[x] != f[y] by {
                    if x == f.len() - 1 {
                        assert(o.finished.contains(f[y]));
                    } else if y == f.len() - 1 {
                        assert(o.finished.contains(f[x]));
                    }
                }
            }
            assert forall|j: int| 0 <= j < o.len() implies (f.contains(j as nat) <==> is_terminal(#[trigger] self.states@[j])) by {
                if j != c {
                    assert(o.finished.contains(j as nat) <==> is_terminal(o.states[j]));
                    if f.contains(j as nat) {
                        let x = choose|x: int| 0 <= x < f.len() && f[x] == j as nat;
                        assert(o.finished[x] == j as nat);
                    }
                    if o.finished.contains(j as nat) {
                        let x = choose|x: int| 0 <= x < o.finished.len() && o.finished[x] == j as nat;
                        assert(f[x] == j as nat);
                    }
                } else if !(next is Transferring) {
                    assert(f[f.len() - 1] == c as nat);
                }
            }
        }
        if self.current < self.states.len() {
            let k = self.current;
            self.states.set(k, ItemState::OfferWaiting);
            self.emit(actions, Action::Request(k), Ghost(base));
            proof {
                let r = self@.requests;
                assert(r == o.requests.push(k as nat));
                assert(o.requests.last() == c);
                assert forall|i: int, j: int| 0 <= i <= j < r.len() implies r[i] <= r[j] by {
                    if j < r.len() - 1 {
                        assert(r[i] == o.requests[i] && r[j] == o.requests[j]);
                        assert(o.requests[i] <= o.requests[j]);
                    } else if i < r.len() - 1 {
                        assert(r[i] == o.requests[i]);
                        assert(o.requests[i] <= c);
                    }
                }
                assert forall|j: int| 0 <= j < self@.len() implies (self@.finished.contains(j as nat) <==> is_terminal(#[trigger] self@.states[j])) by {
                    assert(mid.finished.contains(j as nat) <==> is_terminal(mid.states[j]));
                }
                assert(self@.core_wf());
            }
        } else {
            proof {
                assert(self@.core_wf());
            }
        }
        self.settle(actions, Ghost(base));
    }

    /// Starts a batch: the first item's request goes out, or the batch is
    /// done at once when it is empty. Each offer is requested at most
    /// `max_retries` more times after the first.
    pub fn new(items: Vec<Item>, nick: Vec<u8>, max_retries: u64) -> (r: (Coordinator, Vec<Action>))
        ensures
            r.0@.wf(),
            r.0@.bots == Seq::new(items@.len(), |i: int| items@[i].bot@),
            r.0@.packages == Seq::new(items@.len(), |i: int| items@[i].package),
            r.0@.nick == nick@,
            r.0@.max_retries == max_retries,
            r.0@.current == 0,
            r.0@.retries == 0,
            r.0@.requests == requested_items(r.1@),
            r.0@.finished == finished_items(r.1@),
            r.0@.all_done == all_done_count(r.1@),
            items@.len() > 0 ==> r.1@ == seq![Action::Request(0)] && r.0@.states[0] is OfferWaiting
                && forall|j: int| 0 < j < items@.len() ==> #[trigger] r.0@.states[j] is Pending,
            items@.len() == 0 ==> r.1@ == seq![Action::AllDone] && r.0@.done,
    {
        let n = items.len();
        let mut states: Vec<ItemState> = Vec::new();
        let mut i: usize = 0;
        while i < n
            invariant
                0 <= i <= n,
                states@.len() == i,
                forall|j: int| 0 <= j < i ==> #[trigger] states@[j] == if j == 0 {
                    ItemState::OfferWaiting
                } else {
                    ItemState::Pending
                },
            decreases n - i,
        {
            if i == 0 {
                states.push(ItemState::OfferWaiting);
            } else {
                states.push(ItemState::Pending);
            }
            i = i + 1;
        }
        let mut c = Coordinator {
            items,
            nick,
            states,
            current: 0,
            retries: 0,
            max_retries,
            bad_offer: false,
            done: false,
            requests: Ghost(Seq::empty()),
            finished: Ghost(Seq::empty()),
            all_done: Ghost(0),
        };
        let mut actions: Vec<Action> = Vec::new();
        let ghost base = BatchView { requests: Seq::empty(), finished: Seq::empty(), all_done: 0, ..c@ };
        proof {
            assert(c@.requests =~= base.requests + requested_items(actions@));
            assert(c@.finished =~= base.finished + finished_items(actions@));
        }
        if n > 0 {
            c.emit(&mut actions, Action::Request(0), Ghost(base));
            assert(actions@ =~= seq![Action::Request(0)]);
        } else {
            c.emit(&mut actions, Action::AllDone, Ghost(base));
            c.done = true;
            assert(actions@ =~= seq![Action::AllDone]);
        }
        proof {
            assert(c@.requests =~= requested_items(actions@));
            assert(c@.finished =~= finished_items(actions@));
            assert(c@.core_wf());
        }
        (c, actions)
    }

    /// The offer wait for the current item ran out: the request goes out
    /// again while retries are left; else the item fails and the batch moves
    /// on to the next item at once.
    pub fn on_offer_timeout(&mut self) -> (r: Vec<Action>)
        requires
            old(self)@.wf(),
        ensures
            final(self)@.wf(),
            old(self)@.logs_follow(final(self)@, r@),
            !old(self)@.waiting() ==> final(self)@ == old(self)@ && r@.len() == 0,
            old(self)@.waiting() && old(self)@.retries < old(self)@.max_retries ==> {
                &&& r@ == seq![Action::Request(old(self)@.current as usize)]
                &&& final(self)@ == (BatchView { retries: old(self)@.retries + 1, requests: final(self)@.requests, ..old(self)@ })
            },
            old(self)@.waiting() && old(self)@.retries == old(self)@.max_retries ==> {
                let o = old(self)@;
                let c = o.current as int;
                let why = ItemState::Failed(if o.bad_offer { FailReason::BadOffer } else { FailReason::Timeout });
                &&& r@[0] == Action::Finished(c as usize, why)
                &&& final(self)@.states[c] == why
                &&& final(self)@.current == o.current + 1
                &&& c + 1 < o.len() ==> r@[1] == Action::Request((c + 1) as usize)
                    && final(self)@.states[c + 1] is OfferWaiting
                &&& forall|j: int| 0 <= j < o.len() && j != c && j != c + 1 ==> #[trigger] final(self)@.states[j] == o.states[j]
            },
    {
        proof { self.lemma_lens(); }
        let mut actions: Vec<Action> = Vec::new();
        let ghost base = self@;
        proof {
            assert(self@.requests =~= base.requests + requested_items(actions@));
            assert(self@.finished =~= base.finished + finished_items(actions@));
        }
        if self.current >= self.states.len() {
            return actions;
        }
        if self.retries < self.max_retries {
            self.retries = self.retries + 1;
            let k = self.current;
            self.emit(&mut actions, Action::Request(k), Ghost(base));
            proof {
                let r = self@.requests;
                let o = base.requests;
                assert(r == o.push(k as nat));
                assert forall|i: int, j: int| 0 <= i <= j < r.len() implies r[i] <= r[j] by {
                    if j < r.len() - 1 {
                        assert(r[i] == o[i] && r[j] == o[j]);
                    } else if i < r.len() - 1 {
                        assert(r[i] == o[i]);
                    }
                }
                assert(actions@ =~= seq![Action::Request(k)]);
                assert(self@.core_wf());
            }
            return actions;
        }
        let why = if self.bad_offer { FailReason::BadOffer } else { FailReason::Timeout };
        let k = self.current;
        self.advance(&mut actions, ItemState::Failed(why), Action::Finished(k, ItemState::Failed(why)), Ghost(base));
        proof {
            assert(actions@[0] == Action::Finished(k, ItemState::Failed(why)));
        }
        actions
    }

    /// Transfer `k` ended in `outcome`.
    pub fn on_transfer_end(&mut self, k: usize, outcome: ItemState) -> (r: Vec<Action>)
        requires
            old(self)@.wf(),
            is_terminal(outcome),
        ensures
            final(self)@.wf(),
            old(self)@.logs_follow(final(self)@, r@),
            !(k < old(self)@.len() && old(self)@.states[k as int] is Transferring) ==> final(self)@ == old(self)@
                && r@.len() == 0,
            k < old(self)@.len() && old(self)@.states[k as int] is Transferring ==> {
                &&& final(self)@.states == old(self)@.states.update(k as int, outcome)
                &&& final(self)@.current == old(self)@.current
                &&& r@[0] == Action::Finished(k, outcome)
                &&& r@ == if final(self)@.done {
                    seq![Action::Finished(k, outcome), Action::AllDone]
                } else {
                    seq![Action::Finished(k, outcome)]
                }
            },
    {
        proof { self.lemma_lens(); }
        let mut actions: Vec<Action> = Vec::new();
        let ghost base = self@;
        proof {
            assert(self@.requests =~= base.requests + requested_items(actions@));
            assert(self@.finished =~= base.finished + finished_items(actions@));
        }
        if k >= self.states.len() {
            return actions;
        }
        match self.states[k] {
            ItemState::Transferring => {},
            _ => {
                return actions;
            },
        }
        self.emit(&mut actions, Action::Finished(k, outcome), Ghost(base));
        self.states.set(k, outcome);
        proof {
            let f = self.finished@;
            let o = base;
            assert(f == o.finished.push(k as nat));
            assert(!o.finished.contains(k as nat));
            assert forall|x: int, y: int| 0 <= x < f.len() && 0 <= y < f.len() && x != y implies f[x] != f[y] by {
                if x == f.len() - 1 {
                    assert(o.finished.contains(f[y]));
                } else if y == f.len() - 1 {
                    assert(o.finished.contains(f[x]));
                }
            }
            assert forall|j: int| 0 <= j < o.len() implies (f.contains(j as nat) <==> is_terminal(#[trigger] self.states@[j])) by {
                if j != k {
                    assert(o.finished.contains(j as nat) <==> is_terminal(o.states[j]));
                    if f.contains(j as nat) {
                        let x = choose|x: int| 0 <= x < f.len() && f[x] == j as nat;
                        assert(o.finished[x] == j as nat);
                    }
                    if o.finished.contains(j as nat) {
                        let x = choose|x: int| 0 <= x < o.finished.len() && o.finished[x] == j as nat;
                        assert(f[x] == j as nat);
                    }
                } else {
                    assert(f[f.len() - 1] == k as nat);
                }
            }
            assert(self@.core_wf());
        }
        let ghost before = actions@;
        self.settle(&mut actions, Ghost(base));
        proof {
            assert(before =~= seq![Action::Finished(k, outcome)]);
            if self@.done {
                assert(actions@ =~= seq![Action::Finished(k, outcome), Action::AllDone]);
            }
        }
        actions
    }

    /// A line from the control connection. A DCC SEND from the current
    /// item's bot to this nickname starts that item's transfer and the next
    /// item's request; a malformed one is remembered and otherwise ignored,
    /// as is every other line.
    pub fn on_line(&mut self, line: &IrcLine) -> (r: Vec<Action>)
        requires
            old(self)@.wf(),
        ensures
            final(self)@.wf(),
            old(self)@.logs_follow(final(self)@, r@),
            ({
                let o = old(self)@;
                let c = o.current as int;
                let text = if o.waiting() {
                    direct_text((line.prefix@, line.command@, line.args@), o.bots[c], o.nick)
                } else {
                    None
                };
                let ctcp = text is Some && text->Some_0.len() > 0 && text->Some_0[0] == 1u8;
                let well_formed = exists|x: OfferView| offer_wf(x) && #[trigger] dcc_payload(x) == text->Some_0;
                &&& !ctcp ==> final(self)@ == o && r@.len() == 0
                &&& ctcp && !well_formed ==> final(self)@ == (BatchView { bad_offer: true, ..o }) && r@.len() == 0
                &&& ctcp && well_formed ==> {
                    &&& r@[0] is StartTransfer
                    &&& r@[0]->StartTransfer_0 == c
                    &&& offer_wf(r@[0]->StartTransfer_1@)
                    &&& dcc_payload(r@[0]->StartTransfer_1@) == text->Some_0
                    &&& final(self)@.states[c] is Transferring
                    &&& final(self)@.current == o.current + 1
                    &&& c + 1 < o.len() ==> r@[1] == Action::Request((c + 1) as usize)
                }
            }),
    {
        proof { self.lemma_lens(); }
        let mut actions: Vec<Action> = Vec::new();
        let ghost base = self@;
        proof {
            assert(self@.requests =~= base.requests + requested_items(actions@));
            assert(self@.finished =~= base.finished + finished_items(actions@));
        }
        if self.current >= self.states.len() {
            return actions;
        }
        let c = self.current;
        let text = match direct_text_of(line, self.items[c].bot.as_slice(), self.nick.as_slice()) {
            Some(t) => t,
            None => {
                return actions;
            },
        };
        if text.len() == 0 || text[0] != 1u8 {
            return actions;
        }
        match decode_dcc_send(text.as_slice()) {
            Ok(offer) => {
                let ghost ov = offer@;
                self.advance(&mut actions, ItemState::Transferring, Action::StartTransfer(c, offer), Ghost(base));
                proof {
                    assert(offer_wf(ov) && dcc_payload(ov) == text@);
                }
            },
            Err(_) => {
                self.bad_offer = true;
            },
        }
        actions
    }

    /// The control connection is gone: every item not yet past its offer
    /// fails at once, in item order; transfers already running go on.
    #[verifier::rlimit(80)]
    pub fn on_session_lost(&mut self) -> (r: Vec<Action>)
        requires
            old(self)@.wf(),
        ensures
            final(self)@.wf(),
            old(self)@.logs_follow(final(self)@, r@),
            final(self)@.current == final(self)@.len(),
            forall|j: int| 0 <= j < old(self)@.current ==> #[trigger] final(self)@.states[j] == old(self)@.states[j],
            forall|j: int| old(self)@.current <= j < old(self)@.len() ==> #[trigger] final(self)@.states[j]
                == ItemState::Failed(FailReason::SessionLost),
            finished_items(r@) == Seq::new(
                (old(self)@.len() - old(self)@.current) as nat,
                |i: int| (old(self)@.current + i) as nat,
            ),
    {
        proof { self.lemma_lens(); }
        let mut actions: Vec<Action> = Vec::new();
        let ghost base = self@;
        proof {
            assert(self@.requests =~= base.requests + requested_items(actions@));
            assert(self@.finished =~= base.finished + finished_items(actions@));
        }
        let n = self.states.len();
        let c0 = self.current;
        let mut k: usize = c0;
        while k < n
            invariant
                n == self.states@.len(),
                self.items@.len() == n,
                c0 == base.current,
                c0 <= k <= n,
                self.current == c0,
                self.done == base.done,
                base.wf(),
                base.len() == n,
                base.logs_follow(self@, actions@),
                self@.requests == base.requests,
                self@.all_done == base.all_done,
                self@.retries == base.retries,
                self@.bad_offer == base.bad_offer,
                forall|j: int| 0 <= j < c0 ==> #[trigger] self.states@[j] == base.states[j],
                forall|j: int| c0 <= j < k ==> #[trigger] self.states@[j] == ItemState::Failed(FailReason::SessionLost),
                forall|j: int| k <= j < n ==> #[trigger] self.states@[j] == base.states[j],
                finished_items(actions@) == Seq::new((k - c0) as nat, |i: int| (c0 + i) as nat),
                self@.finished == base.finished + finished_items(actions@),
            decreases n - k,
        {
            let ghost before = self@;
            let ghost acts = actions@;
            self.states.set(k, ItemState::Failed(FailReason::SessionLost));
            self.emit(&mut actions, Action::Finished(k, ItemState::Failed(FailReason::SessionLost)), Ghost(base));
            proof {
                lemma_push_action(acts, Action::Finished(k, ItemState::Failed(FailReason::SessionLost)));
                assert(finished_items(actions@) =~= Seq::new((k + 1 - c0) as nat, |i: int| (c0 + i) as nat));
            }
            k = k + 1;
        }
        self.current = n;
        self.retries = 0;
        proof {
            let f = self@.finished;
            let o = base.finished;
            let added = finished_items(actions@);
            assert(f == o + added);
            assert forall|x: int| 0 <= x < f.len() implies #[trigger] f[x] < n by {
                if x >= o.len() {
                    assert(f[x] == added[x - o.len()]);
                }
            }
            assert forall|x: int| 0 <= x < o.len() implies #[trigger] o[x] < c0 by {
                let j = o[x] as int;
                assert(o.contains(o[x]));
                assert(is_terminal(base.states[j]));
            }
            assert forall|x: int, y: int| 0 <= x < f.len() && 0 <= y < f.len() && x != y implies f[x] != f[y] by {
                if x < o.len() && y < o.len() {
                } else if x >= o.len() && y >= o.len() {
                    assert(f[x] == added[x - o.len()] && f[y] == added[y - o.len()]);
                } else if x < o.len() {
                    assert(f[y] == added[y - o.len()]);
                    assert(o[x] < c0);
                } else {
                    assert(f[x] == added[x - o.len()]);
                    assert(o[y] < c0);
                }
            }
            assert forall|j: int| 0 <= j < n implies (f.contains(j as nat) <==> is_terminal(#[trigger] self@.states[j])) by {
                if j < c0 {
                    assert(o.contains(j as nat) <==> is_terminal(base.states[j]));
                    if o.contains(j as nat) {
                        let x = choose|x: int| 0 <= x < o.len() && o[x] == j as nat;
                        assert(f[x] == j as nat);
                    }
                    if f.contains(j as nat) {
                        let x = choose|x: int| 0 <= x < f.len() && f[x] == j as nat;
                        if x >= o.len() {
                            assert(f[x] == added[x - o.len()]);
                        }
                    }
                } else {
                    let x = o.len() + (j - c0);
                    assert(f[x] == added[j - c0]);
                }
            }
            assert forall|i: int| 0 <= i < self@.requests.len() implies #[trigger] self@.requests[i] <= self@.current
                && self@.requests[i] < n by {
                assert(base.requests[i] <= c0);
            }
            assert(self@.core_wf());
        }
        let ghost mid = actions@;
        self.settle(&mut actions, Ghost(base));
        proof {
            if actions@ != mid {
                lemma_push_action(mid, Action::AllDone);
            }
        }
        actions
    }
}

/// Every item reaches its closing event at most once, and exactly when it is
/// terminal; once the batch is done, every item has had exactly one.
pub proof fn lemma_one_closing_event(v: BatchView)
    requires
        v.wf(),
    ensures
        v.finished.no_duplicates(),
        forall|j: int| 0 <= j < v.len() ==> (v.finished.contains(j as nat) <==> is_terminal(#[trigger] v.states[j])),
        v.done ==> forall|j: int| 0 <= j < v.len() ==> #[trigger] v.finished.contains(j as nat),
        v.all_done <= 1,
{
    if v.done {
        assert forall|j: int| 0 <= j < v.len() implies #[trigger] v.finished.contains(j as nat) by {
            assert(is_terminal(v.states[j]));
        }
    }
}

/// Once every item has been issued and no transfer is still running, the
/// batch is done: no item is left without its closing event.
pub proof fn lemma_done_when_nothing_runs(v: BatchView)
    requires
        v.wf(),
        v.current == v.len(),
        forall|j: int| 0 <= j < v.len() ==> !(#[trigger] v.states[j] is Transferring),
    ensures
        v.done,
        v.all_done == 1,
        forall|j: int| 0 <= j < v.len() ==> #[trigger] v.finished.contains(j as nat),
{
    assert forall|j: int| 0 <= j < v.len() implies is_terminal(#[trigger] v.states[j]) by {
        assert(!(v.states[j] is Pending) && !(v.states[j] is OfferWaiting));
    }
    lemma_one_closing_event(v);
}

/// Requests go out in the order of the items: the first item first, never
/// back to an earlier one, and never past an item that was not requested.
pub proof fn lemma_requests_in_item_order(v: BatchView)
    requires
        v.wf(),
    ensures
        in_item_order(v.requests),
        forall|i: int| 0 <= i < v.requests.len() ==> #[trigger] v.requests[i] < v.len(),
        v.waiting() ==> v.requests.last() == v.current,
{
}

} // verus!
