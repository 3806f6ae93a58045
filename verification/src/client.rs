//! The client-side state machine around one join call.
//!
//! The user interface around it only renders fields and forwards events; the
//! decisions — when a join call may be issued, how the name is validated, and
//! how arriving events fold into the displayed state — live here.

use vstd::prelude::*;
use vstd::string::StringExecFns;

use crate::character::BattleResult;
use crate::rng::{fresh_seed, Lcg};

verus! {

/// An event the background request thread reports back to the screen state.
pub enum ClientEvent {
    /// The request thread started.
    Started,
    /// The server answered with the joiner's result.
    Completed(BattleResult),
    /// The request failed; the message describes how.
    Failed(String),
}

/// What the client screen currently reports.
pub enum Status {
    /// Nothing is in flight.
    Idle,
    /// The join request was just posted.
    WaitingPost,
    /// The server acknowledged and is matching or battling.
    WaitingServer,
    /// A result arrived.
    Done,
    /// The join was refused locally: the trimmed player name is empty.
    NameEmpty,
    /// The request failed with this message.
    Error(String),
}

/// The data a join call needs: where to post and the joiner this client
/// plays.
pub struct JoinCall {
    pub url: String,
    pub name: String,
    pub hp: i32,
    pub atk: i32,
}

/// The screen state of the client: connection settings, the local character's
/// stats, what is displayed, and the events not yet folded in.
pub struct AppState {
    pub server_url: String,
    pub player_name: String,
    pub hp: i32,
    pub atk: i32,
    pub status: Status,
    pub waiting: bool,
    pub last_result: Option<BattleResult>,
    pub pending: Vec<ClientEvent>,
}

/// What `str::trim` returns: a function of the characters alone.
pub uninterp spec fn trimmed(s: Seq<char>) -> Seq<char>;

/// What `str::trim_end_matches` with a slash pattern returns: a function of
/// the characters alone.
pub uninterp spec fn trimmed_slashes(s: Seq<char>) -> Seq<char>;

/// Relies on `str::trim`: the result depends on the characters alone, and
/// trimming the empty string yields the empty string.
#[verifier::external_body]
fn trim_name(s: &String) -> (r: String)
    ensures
        r@ == trimmed(s@),
        s@.len() == 0 ==> r@.len() == 0,
{
    s.trim().to_owned()
}

/// Relies on `str::trim_end_matches`: the result depends on the characters
/// alone.
#[verifier::external_body]
fn trim_trailing_slashes(s: &String) -> (r: String)
    ensures
        r@ == trimmed_slashes(s@),
{
    s.trim_end_matches('/').to_owned()
}

/// How one event folds into the displayed state.
pub open spec fn apply_event(
    status: Status,
    waiting: bool,
    last: Option<BattleResult>,
    ev: ClientEvent,
) -> (Status, bool, Option<BattleResult>) {
    match ev {
        ClientEvent::Started => (Status::WaitingServer, waiting, last),
        ClientEvent::Completed(r) => (Status::Done, false, Some(r)),
        ClientEvent::Failed(m) => (Status::Error(m), false, last),
    }
}

/// The displayed state after folding in a whole queue of events, oldest
/// first.
pub open spec fn pump_model(
    status: Status,
    waiting: bool,
    last: Option<BattleResult>,
    evs: Seq<ClientEvent>,
) -> (Status, bool, Option<BattleResult>)
    decreases evs.len(),
{
    if evs.len() == 0 {
        (status, waiting, last)
    } else {
        let s1 = apply_event(status, waiting, last, evs.first());
        pump_model(s1.0, s1.1, s1.2, evs.drop_first())
    }
}

impl AppState {
    /// Folds every queued event into the displayed state, oldest first, and
    /// leaves the queue empty.
    pub fn pump_events(&mut self)
        ensures
            final(self).server_url == old(self).server_url,
            final(self).player_name == old(self).player_name,
            final(self).hp == old(self).hp,
            final(self).atk == old(self).atk,
            final(self).pending@ == Seq::<ClientEvent>::empty(),
            (final(self).status, final(self).waiting, final(self).last_result) == pump_model(
                old(self).status,
                old(self).waiting,
                old(self).last_result,
                old(self).pending@,
            ),
    {
        let ghost target = pump_model(
            old(self).status,
            old(self).waiting,
            old(self).last_result,
            old(self).pending@,
        );
        while self.pending.len() > 0
            invariant
                target == pump_model(self.status, self.waiting, self.last_result, self.pending@),
                self.server_url == old(self).server_url,
                self.player_name == old(self).player_name,
                self.hp == old(self).hp,
                self.atk == old(self).atk,
            decreases self.pending@.len(),
        {
            let ghost before = self.pending@;
            let ev = self.pending.remove(0);
            proof {
                assert(self.pending@ =~= before.drop_first());
                assert(ev == before.first());
            }
            match ev {
                ClientEvent::Started => {
                    self.status = Status::WaitingServer;
                },
                ClientEvent::Completed(r) => {
                    self.waiting = false;
                    self.status = Status::Done;
                    self.last_result = Some(r);
                },
                ClientEvent::Failed(m) => {
                    self.waiting = false;
                    self.status = Status::Error(m);
                },
            }
        }
        proof {
            assert(self.pending@ =~= Seq::<ClientEvent>::empty());
        }
    }

    /// Queues one event reported by the request thread; the next
    /// [`AppState::pump_events`] folds it in.
    pub fn push_event(&mut self, ev: ClientEvent)
        ensures
            final(self).pending@ == old(self).pending@.push(ev),
            final(self).server_url == old(self).server_url,
            final(self).player_name == old(self).player_name,
            final(self).hp == old(self).hp,
            final(self).atk == old(self).atk,
            final(self).status == old(self).status,
            final(self).waiting == old(self).waiting,
            final(self).last_result == old(self).last_result,
    {
        self.pending.push(ev);
    }

    /// Decides whether a join call goes out: nothing happens while one is in
    /// flight, an empty trimmed name is refused locally, and otherwise the
    /// state flips to waiting and the call to issue is returned.
    pub fn join(&mut self) -> (call: Option<JoinCall>)
        ensures
            final(self).server_url == old(self).server_url,
            final(self).player_name == old(self).player_name,
            final(self).hp == old(self).hp,
            final(self).atk == old(self).atk,
            final(self).pending == old(self).pending,
            old(self).waiting ==> (call is None && *final(self) == *old(self)),
            !old(self).waiting && trimmed(old(self).player_name@).len() == 0 ==> ({
                &&& call is None
                &&& final(self).status is NameEmpty
                &&& final(self).waiting == false
                &&& final(self).last_result == old(self).last_result
            }),
            !old(self).waiting && trimmed(old(self).player_name@).len() > 0 ==> ({
                &&& call matches Some(c)
                &&& c.url@ == trimmed_slashes(old(self).server_url@)
                &&& c.name@ == trimmed(old(self).player_name@)
                &&& c.hp == old(self).hp
                &&& c.atk == old(self).atk
                &&& final(self).waiting == true
                &&& final(self).status is WaitingPost
                &&& final(self).last_result is None
            }),
    {
        if self.waiting {
            return None;
        }
        let url = trim_trailing_slashes(&self.server_url);
        let name = trim_name(&self.player_name);
        if name.as_str().is_empty() {
            self.status = Status::NameEmpty;
            return None;
        }
        self.waiting = true;
        self.last_result = None;
        self.status = Status::WaitingPost;
        Some(JoinCall { url, name, hp: self.hp, atk: self.atk })
    }
}

impl Default for AppState {
    /// A fresh client: default local server address, a default player name,
    /// randomly drawn stats (hit points in `[80, 120)`, attack in `[5, 20)`),
    /// idle, and nothing queued.
    fn default() -> (r: Self)
        ensures
            r.server_url@ == "http://127.0.0.1:3000"@,
            r.player_name@ == "Shogo_A"@,
            80 <= r.hp < 120,
            5 <= r.atk < 20,
            r.status is Idle,
            r.waiting == false,
            r.last_result is None,
            r.pending@ == Seq::<ClientEvent>::empty(),
    {
        let mut rng = Lcg::new(fresh_seed());
        let hp: i32 = 80 + rng.next_below(40) as i32;
        let atk: i32 = 5 + rng.next_below(15) as i32;
        AppState {
            server_url: String::from_str("http://127.0.0.1:3000"),
            player_name: String::from_str("Shogo_A"),
            hp,
            atk,
            status: Status::Idle,
            waiting: false,
            last_result: None,
            pending: Vec::new(),
        }
    }
}

} // verus!
