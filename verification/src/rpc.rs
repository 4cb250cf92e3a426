//! The front-end side of the RPC protocol: the shape of inbound messages, the
//! ids of outbound requests, and the table of requests that await a response.
//!
//! Nothing here reads or writes the stream. A caller frames what
//! [`Core::send_notification`] and [`Core::send_request`] return, and hands
//! each inbound message to [`deliver`] and each response to
//! [`Core::complete`].

use crate::codec::str_eq;
use crate::json::{member, value_member, value_str, value_u64};
use crate::linecache::ParseError;
use crate::pending::Pending;
use serde_json::Value;
use vstd::prelude::*;

verus! {

/// An outbound message: a request where it has an id, else a notification.
pub struct Outgoing<'a> {
    pub method: &'a str,
    pub params: &'a Value,
    pub id: Option<u64>,
}

/// An inbound message, told by its shape.
pub enum Message<'a> {
    /// A message with a string `method`: its `params` go to the handler.
    Notification { method: &'a str, params: &'a Value },
    /// A message without a string `method` and with a numeric `id`: its
    /// `result` goes to the request of that id.
    Response { id: u64, result: &'a Value },
    /// Any other message.
    Unrecognized,
}

/// What an inbound message holds.
pub enum MessageView {
    Notification { method: Seq<char>, params: Value },
    Response { id: u64, result: Value },
    Unrecognized,
}

impl<'a> View for Message<'a> {
    type V = MessageView;

    open spec fn view(&self) -> MessageView {
        match self {
            Message::Notification { method, params } => MessageView::Notification {
                method: method@,
                params: **params,
            },
            Message::Response { id, result } => MessageView::Response { id: *id, result: **result },
            Message::Unrecognized => MessageView::Unrecognized,
        }
    }
}

/// The message with the given members: a notification where `method` is
/// there, else a response where `id` is there.
pub open spec fn message_from_parts(
    method: Option<Seq<char>>,
    id: Option<u64>,
    params: Value,
    result: Value,
) -> MessageView {
    match method {
        Some(method) => MessageView::Notification { method, params },
        None => match id {
            Some(id) => MessageView::Response { id, result },
            None => MessageView::Unrecognized,
        },
    }
}

/// The message that a JSON value is.
pub open spec fn message_from_json(msg: Value) -> MessageView {
    message_from_parts(
        value_str(value_member(msg, "method"@)),
        value_u64(value_member(msg, "id"@)),
        value_member(msg, "params"@),
        value_member(msg, "result"@),
    )
}

impl<'a> Message<'a> {
    /// Tells a message by its members.
    pub fn from_parts(
        method: Option<&'a str>,
        id: Option<u64>,
        params: &'a Value,
        result: &'a Value,
    ) -> (m: Message<'a>)
        ensures
            m@ == message_from_parts(
                match method {
                    Some(name) => Some(name@),
                    None => None,
                },
                id,
                *params,
                *result,
            ),
    {
        match method {
            Some(method) => Message::Notification { method, params },
            None => match id {
                Some(id) => Message::Response { id, result },
                None => Message::Unrecognized,
            },
        }
    }

    /// Tells an inbound message by its shape.
    pub fn from_json(msg: &'a Value) -> (m: Message<'a>)
        ensures
            m@ == message_from_json(*msg),
    {
        Message::from_parts(
            member(msg, "method").as_str(),
            member(msg, "id").as_u64(),
            member(msg, "params"),
            member(msg, "result"),
        )
    }
}

/// Receives the notifications of a connection.
pub trait Handler {
    fn notification(&self, method: &str, params: &Value);
}

/// Takes one inbound message: a notification is handed to `handler`. The
/// message comes back as it was told, for the caller to complete a response
/// and to report a message that was not recognized.
pub fn deliver<'a, H: Handler>(handler: &H, msg: &'a Value) -> (m: Message<'a>)
    ensures
        m@ == message_from_json(*msg),
{
    let m = Message::from_json(msg);
    match m {
        Message::Notification { method, params } => {
            handler.notification(method, params);
        },
        _ => {},
    }
    m
}

/// A notification from the core, told by its method.
pub enum Notification<'a> {
    /// `update`: the update to apply to the line cache.
    Update(&'a Value),
    /// `scroll_to`: the line to bring into view.
    ScrollTo(u64),
    /// A method that is known and has no effect.
    Ignored,
    /// Any other method.
    Unhandled,
}

/// What a notification holds.
pub enum NotificationView {
    Update(Value),
    ScrollTo(u64),
    Ignored,
    Unhandled,
}

impl<'a> View for Notification<'a> {
    type V = NotificationView;

    open spec fn view(&self) -> NotificationView {
        match self {
            Notification::Update(update) => NotificationView::Update(**update),
            Notification::ScrollTo(line) => NotificationView::ScrollTo(*line),
            Notification::Ignored => NotificationView::Ignored,
            Notification::Unhandled => NotificationView::Unhandled,
        }
    }
}

/// The methods that are known and have no effect.
pub open spec fn is_ignored_method(method: Seq<char>) -> bool {
    ||| method == "available_themes"@
    ||| method == "available_plugins"@
    ||| method == "available_languages"@
    ||| method == "config_changed"@
    ||| method == "language_changed"@
}

/// The notification that a method and its parameters are.
pub open spec fn notification_from_json(method: Seq<char>, params: Value) -> Result<
    NotificationView,
    ParseError,
> {
    if method == "update"@ {
        Ok(NotificationView::Update(value_member(params, "update"@)))
    } else if method == "scroll_to"@ {
        match value_u64(value_member(params, "line"@)) {
            Some(line) => Ok(NotificationView::ScrollTo(line)),
            None => Err(ParseError::MissingLine),
        }
    } else if is_ignored_method(method) {
        Ok(NotificationView::Ignored)
    } else {
        Ok(NotificationView::Unhandled)
    }
}

impl<'a> Notification<'a> {
    /// Tells a notification by its method.
    pub fn from_json(method: &str, params: &'a Value) -> (r: Result<Notification<'a>, ParseError>)
        ensures
            match r {
                Ok(n) => notification_from_json(method@, *params) == Ok::<
                    NotificationView,
                    ParseError,
                >(n@),
                Err(e) => notification_from_json(method@, *params) == Err::<
                    NotificationView,
                    ParseError,
                >(e),
            },
    {
        if str_eq(method, "update") {
            Ok(Notification::Update(member(params, "update")))
        } else if str_eq(method, "scroll_to") {
            match member(params, "line").as_u64() {
                Some(line) => Ok(Notification::ScrollTo(line)),
                None => Err(ParseError::MissingLine),
            }
        } else if str_eq(method, "available_themes") || str_eq(method, "available_plugins")
            || str_eq(method, "available_languages") || str_eq(method, "config_changed") || str_eq(
            method,
            "language_changed",
        ) {
            Ok(Notification::Ignored)
        } else {
            Ok(Notification::Unhandled)
        }
    }
}

/// The state of a connection: the id of the next request, and the requests
/// that await a response, each with what completes it.
pub struct Core<C> {
    id: u64,
    pending: Pending<C>,
}

/// What the state of a connection holds.
pub struct CoreState<C> {
    pub next_id: u64,
    pub pending: Map<u64, C>,
}

/// Every request that awaits a response has an id that was given out.
pub open spec fn core_wf<C>(core: CoreState<C>) -> bool {
    forall|id: u64| core.pending.contains_key(id) ==> id < core.next_id
}

/// The state after one more request, completed by `callback`.
pub open spec fn after_request<C>(core: CoreState<C>, callback: C) -> CoreState<C> {
    CoreState {
        next_id: (core.next_id + 1) as u64,
        pending: core.pending.insert(core.next_id, callback),
    }
}

/// The state after the requests completed by `callbacks`, sent in order.
pub open spec fn after_requests<C>(core: CoreState<C>, callbacks: Seq<C>) -> CoreState<C>
    decreases callbacks.len(),
{
    if callbacks.len() == 0 {
        core
    } else {
        after_request(after_requests(core, callbacks.drop_last()), callbacks.last())
    }
}

/// The state after the response to request `id`.
pub open spec fn after_response<C>(core: CoreState<C>, id: u64) -> CoreState<C> {
    CoreState { next_id: core.next_id, pending: core.pending.remove(id) }
}

impl<C> View for Core<C> {
    type V = CoreState<C>;

    closed spec fn view(&self) -> CoreState<C> {
        CoreState { next_id: self.id, pending: self.pending@ }
    }
}

impl<C> Core<C> {
    #[verifier::type_invariant]
    spec fn inv(&self) -> bool {
        core_wf(self@)
    }

    /// A connection on which no request was sent yet.
    pub fn new() -> (core: Self)
        ensures
            core@.next_id == 0,
            core@.pending == Map::<u64, C>::empty(),
            core_wf(core@),
    {
        Core { id: 0, pending: Pending::new() }
    }

    /// The id that the next request gets.
    pub fn next_id(&self) -> (id: u64)
        ensures
            id == self@.next_id,
            core_wf(self@),
    {
        proof {
            use_type_invariant(self);
        }
        self.id
    }

    /// The notification to send: a frame of `method` and `params` without an
    /// id. Nothing is kept of it.
    pub fn send_notification<'a>(&self, method: &'a str, params: &'a Value) -> (frame: Outgoing<'a>)
        ensures
            frame.method@ == method@,
            *frame.params == *params,
            frame.id is None,
    {
        Outgoing { method, params, id: None }
    }

    /// The request to send: a frame of `method` and `params` with the next
    /// id, which no request had before. `callback` is kept under that id
    /// until the response comes.
    pub fn send_request<'a>(&mut self, method: &'a str, params: &'a Value, callback: C) -> (frame:
        Outgoing<'a>)
        requires
            old(self)@.next_id < u64::MAX,
        ensures
            frame.method@ == method@,
            *frame.params == *params,
            frame.id == Some(old(self)@.next_id),
            !old(self)@.pending.contains_key(old(self)@.next_id),
            final(self)@ == after_request(old(self)@, callback),
            core_wf(final(self)@),
    {
        proof {
            use_type_invariant(&*self);
        }
        let id: u64 = self.id;
        let mut pending: Pending<C> = Pending::new();
        std::mem::swap(&mut self.pending, &mut pending);
        assert(pending@ == old(self)@.pending);
        pending.insert(id, callback);
        self.id = id + 1;
        assert(forall|k: u64| pending@.contains_key(k) ==> k < self.id);
        self.pending = pending;
        Outgoing { method, params, id: Some(id) }
    }

    /// Takes the request with the given id out of the table, for its callback
    /// to be called with the result. A response to no request that awaits one
    /// changes nothing.
    pub fn complete(&mut self, id: u64) -> (callback: Option<C>)
        ensures
            final(self)@ == after_response(old(self)@, id),
            callback == if old(self)@.pending.contains_key(id) {
                Some(old(self)@.pending[id])
            } else {
                None
            },
            !old(self)@.pending.contains_key(id) ==> final(self)@ == old(self)@,
            core_wf(final(self)@),
    {
        proof {
            use_type_invariant(&*self);
        }
        let mut pending: Pending<C> = Pending::new();
        std::mem::swap(&mut self.pending, &mut pending);
        assert(pending@ == old(self)@.pending);
        let callback = pending.remove(id);
        assert(forall|k: u64| pending@.contains_key(k) ==> k < self.id);
        self.pending = pending;
        proof {
            if !old(self)@.pending.contains_key(id) {
                assert(old(self)@.pending.remove(id) =~= old(self)@.pending);
            }
        }
        callback
    }
}

/// Requests sent one after another get ids that grow by one from the id of
/// the first: none is given twice and none is left out. Each request then
/// awaits its response under its id, and the requests that awaited one before
/// still do.
pub proof fn lemma_request_ids<C>(core: CoreState<C>, callbacks: Seq<C>)
    requires
        core_wf(core),
        core.next_id + callbacks.len() <= u64::MAX,
    ensures
        after_requests(core, callbacks).next_id == core.next_id + callbacks.len(),
        core_wf(after_requests(core, callbacks)),
        forall|i: int|
            0 <= i < callbacks.len() ==> {
                &&& #[trigger] after_requests(core, callbacks.take(i)).next_id == core.next_id + i
                &&& after_requests(core, callbacks).pending.contains_key((core.next_id + i) as u64)
                &&& after_requests(core, callbacks).pending[(core.next_id + i) as u64]
                    == callbacks[i]
            },
        forall|id: u64| #[trigger]
            core.pending.contains_key(id) ==> after_requests(core, callbacks).pending.contains_key(
                id,
            ) && after_requests(core, callbacks).pending[id] == core.pending[id],
    decreases callbacks.len(),
{
    if callbacks.len() > 0 {
        let front = callbacks.drop_last();
        lemma_request_ids(core, front);
        assert forall|i: int| 0 <= i < callbacks.len() implies {
            &&& #[trigger] after_requests(core, callbacks.take(i)).next_id == core.next_id + i
            &&& after_requests(core, callbacks).pending.contains_key((core.next_id + i) as u64)
            &&& after_requests(core, callbacks).pending[(core.next_id + i) as u64] == callbacks[i]
        } by {
            if i < front.len() {
                assert(front.take(i) =~= callbacks.take(i));
                assert(front[i] == callbacks[i]);
            } else {
                assert(callbacks.take(i) =~= front);
            }
        }
        let before = after_requests(core, front);
        let after = after_requests(core, callbacks);
        assert(after == after_request(before, callbacks.last()));
        assert forall|id: u64| core.pending.contains_key(id) implies after.pending.contains_key(id)
            && after.pending[id] == core.pending[id] by {
            assert(id < core.next_id);
            assert(before.pending.contains_key(id));
            assert(id != before.next_id);
        }
    }
}

/// A response with an id that no request awaits leaves the table as it is.
pub proof fn lemma_unmatched_response<C>(core: CoreState<C>, id: u64)
    requires
        !core.pending.contains_key(id),
    ensures
        after_response(core, id) == core,
{
    assert(core.pending.remove(id) =~= core.pending);
}

/// A response takes its own request out of the table and no other.
pub proof fn lemma_matched_response<C>(core: CoreState<C>, id: u64, other: u64)
    requires
        other != id,
    ensures
        !after_response(core, id).pending.contains_key(id),
        after_response(core, id).pending.contains_key(other) == core.pending.contains_key(other),
        core.pending.contains_key(other) ==> after_response(core, id).pending[other]
            == core.pending[other],
{
}

} // verus!
