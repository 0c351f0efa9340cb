//! In-memory model of the chat store.
//!
//! The store is an append-only log of chat messages over three tables:
//! users, models and messages. User and model ids are assigned densely in
//! insertion order, starting at one; within one `(user, chat)` pair the
//! message ids are dense from one, so a chat is a contiguous numbered
//! transcript. The durable copy of this state lives in a relational
//! database outside the library; the functions here are the single place
//! where ids are computed and rows are formed, so the persistence layer
//! only ever writes what these contracts describe.

use vstd::prelude::*;
use vstd::utf8::encode_utf8;

use crate::sse::{append_bytes, append_lit, dec_int, format_i32};
use crate::utf8buf::copy_range;

verus! {

/// Spec-level shape of one message row.
pub ghost struct RowModel {
    pub user_id: int,
    pub model_id: int,
    pub chat_id: int,
    pub message_id: int,
    pub body: Seq<u8>,
    pub timestamp: Seq<u8>,
}

/// One message row: who wrote what in which chat, and when.
pub struct MessageRow {
    pub user_id: i32,
    pub model_id: i32,
    pub chat_id: i32,
    pub message_id: i32,
    pub body: Vec<u8>,
    pub timestamp: Vec<u8>,
}

impl View for MessageRow {
    type V = RowModel;

    open spec fn view(&self) -> RowModel {
        RowModel {
            user_id: self.user_id as int,
            model_id: self.model_id as int,
            chat_id: self.chat_id as int,
            message_id: self.message_id as int,
            body: self.body@,
            timestamp: self.timestamp@,
        }
    }
}

/// Spec-level shape of the store: user and model names by id (id is index
/// plus one), and the message log.
pub ghost struct StoreModel {
    pub users: Seq<Seq<u8>>,
    pub models: Seq<Seq<u8>>,
    pub rows: Seq<RowModel>,
}

/// True when some user has this name.
pub open spec fn has_user(users: Seq<Seq<u8>>, name: Seq<u8>) -> bool {
    exists|i: int| 0 <= i < users.len() && users[i] == name
}

/// The index of the user with this name; meaningful when the name exists
/// and names are distinct.
pub open spec fn user_index(users: Seq<Seq<u8>>, name: Seq<u8>) -> int {
    choose|i: int| 0 <= i < users.len() && users[i] == name
}

/// The rows of one chat, in insertion order.
pub open spec fn chat_msgs(rows: Seq<RowModel>, u: int, c: int) -> Seq<RowModel>
    decreases rows.len(),
{
    if rows.len() == 0 {
        Seq::<RowModel>::empty()
    } else {
        chat_msgs(rows.drop_last(), u, c) + if rows.last().user_id == u && rows.last().chat_id
            == c {
            seq![rows.last()]
        } else {
            Seq::<RowModel>::empty()
        }
    }
}

/// True when the chat has at least one row.
pub open spec fn has_chat(rows: Seq<RowModel>, u: int, c: int) -> bool {
    exists|i: int| 0 <= i < rows.len() && rows[i].user_id == u && rows[i].chat_id == c
}

/// True when the user has at least one row.
pub open spec fn has_rows(rows: Seq<RowModel>, u: int) -> bool {
    exists|i: int| 0 <= i < rows.len() && rows[i].user_id == u
}

/// The largest chat id the user has used, or zero with no rows; what the
/// next fresh chat id is computed from.
pub open spec fn max_chat_id(rows: Seq<RowModel>, u: int) -> int
    decreases rows.len(),
{
    if rows.len() == 0 {
        0int
    } else {
        let m = max_chat_id(rows.drop_last(), u);
        let lst = rows.last();
        if lst.user_id == u {
            if has_rows(rows.drop_last(), u) {
                if lst.chat_id > m {
                    lst.chat_id
                } else {
                    m
                }
            } else {
                lst.chat_id
            }
        } else {
            m
        }
    }
}

/// Appending one row extends a chat by that row or leaves it unchanged.
pub proof fn lemma_chat_msgs_push(rows: Seq<RowModel>, u: int, c: int, x: RowModel)
    ensures
        chat_msgs(rows.push(x), u, c) == chat_msgs(rows, u, c) + if x.user_id == u && x.chat_id
            == c {
            seq![x]
        } else {
            Seq::<RowModel>::empty()
        },
{
    assert(rows.push(x).drop_last() =~= rows);
    assert(rows.push(x).last() == x);
}

/// A chat holds no more rows than the whole log.
pub proof fn lemma_chat_msgs_len(rows: Seq<RowModel>, u: int, c: int)
    ensures
        chat_msgs(rows, u, c).len() <= rows.len(),
    decreases rows.len(),
{
    if rows.len() > 0 {
        lemma_chat_msgs_len(rows.drop_last(), u, c);
    }
}

/// A chat has rows exactly when its row sequence is nonempty.
pub proof fn lemma_chat_msgs_nonempty(rows: Seq<RowModel>, u: int, c: int)
    ensures
        chat_msgs(rows, u, c).len() > 0 <==> has_chat(rows, u, c),
    decreases rows.len(),
{
    if rows.len() > 0 {
        lemma_chat_msgs_nonempty(rows.drop_last(), u, c);
        if has_chat(rows.drop_last(), u, c) {
            let i = choose|i: int|
                0 <= i < rows.drop_last().len() && rows.drop_last()[i].user_id == u
                    && rows.drop_last()[i].chat_id == c;
            assert(rows[i].user_id == u && rows[i].chat_id == c);
        }
        if has_chat(rows, u, c) && !(rows.last().user_id == u && rows.last().chat_id == c) {
            let i = choose|i: int|
                0 <= i < rows.len() && rows[i].user_id == u && rows[i].chat_id == c;
            assert(rows.drop_last()[i].user_id == u && rows.drop_last()[i].chat_id == c);
        }
    }
}

impl StoreModel {
    /// The store invariant: user names are distinct, the tables fit the id
    /// type, rows point at real users, and every chat is densely numbered
    /// from one.
    pub open spec fn wf(self) -> bool {
        &&& (forall|i: int, j: int|
            0 <= i < j < self.users.len() ==> #[trigger] self.users[i] != #[trigger] self.users[j])
        &&& self.users.len() <= i32::MAX
        &&& self.models.len() <= i32::MAX
        &&& self.rows.len() <= i32::MAX
        &&& (forall|i: int|
            0 <= i < self.rows.len() ==> 1 <= (#[trigger] self.rows[i]).user_id
                <= self.users.len())
        &&& (forall|u: int, c: int, i: int|
            0 <= i < chat_msgs(self.rows, u, c).len() ==> (#[trigger] chat_msgs(
                self.rows,
                u,
                c,
            )[i]).message_id == i + 1)
    }
}

/// Why a store operation was refused.
#[derive(Clone, Copy, Debug, PartialEq, Eq, Structural)]
pub enum StoreError {
    /// No user has the given name.
    UserNotFound,
}

/// A fetch of one chat's transcript.
#[derive(Clone, Debug)]
pub struct FetchRequest {
    pub username: Vec<u8>,
    pub chat_id: i32,
}

/// A fetch of a user's chat overview.
#[derive(Clone, Debug)]
pub struct HistoryRequest {
    pub username: Vec<u8>,
}

/// The transcript of one chat, or why it could not be fetched.
#[derive(Debug)]
pub enum FetchResponse {
    Success { messages: Vec<(i32, Vec<u8>, Vec<u8>)> },
    Error { message: Vec<u8> },
}

/// One line of a user's chat overview: a chat and its latest message.
#[derive(Debug)]
pub struct HistoryResponse {
    pub chat_id: i32,
    pub latest_msg: Vec<u8>,
}

/// The in-memory chat store.
pub struct ChatStore {
    users: Vec<Vec<u8>>,
    models: Vec<Vec<u8>>,
    rows: Vec<MessageRow>,
}

impl View for ChatStore {
    type V = StoreModel;

    closed spec fn view(&self) -> StoreModel {
        StoreModel {
            users: self.users@.map_values(|v: Vec<u8>| v@),
            models: self.models@.map_values(|v: Vec<u8>| v@),
            rows: self.rows@.map_values(|r: MessageRow| r@),
        }
    }
}

impl ChatStore {
    /// An empty store.
    pub fn new() -> (r: ChatStore)
        ensures
            r@.wf(),
            r@.users == Seq::<Seq<u8>>::empty(),
            r@.models == Seq::<Seq<u8>>::empty(),
            r@.rows == Seq::<RowModel>::empty(),
    {
        let r = ChatStore { users: Vec::new(), models: Vec::new(), rows: Vec::new() };
        proof {
            assert(r@.users =~= Seq::<Seq<u8>>::empty());
            assert(r@.models =~= Seq::<Seq<u8>>::empty());
            assert(r@.rows =~= Seq::<RowModel>::empty());
        }
        r
    }

    /// Finds the position of a user by name.
    fn find_user(&self, name: &Vec<u8>) -> (r: Option<usize>)
        ensures
            match r {
                Option::Some(i) => i < self@.users.len() && self@.users[i as int] == name@
                    && has_user(self@.users, name@),
                Option::None => !has_user(self@.users, name@),
            },
    {
        let mut i: usize = 0;
        while i < self.users.len()
            invariant
                0 <= i <= self@.users.len(),
                self.users@.len() == self@.users.len(),
                forall|j: int| 0 <= j < i ==> self@.users[j] != name@,
            decreases self@.users.len() - i,
        {
            if self.users[i] == *name {
                proof {
                    assert(self.users@[i as int]@ =~= name@);
                }
                return Option::Some(i);
            }
            proof {
                if self@.users[i as int] == name@ {
                    assert(self.users@[i as int]@ =~= name@);
                    assert(false);
                }
            }
            i += 1;
        }
        Option::None
    }

    /// The id of the user with this name, where one exists.
    pub fn get_user_id(&self, name: &Vec<u8>) -> (r: Result<i32, StoreError>)
        requires
            self@.wf(),
        ensures
            match r {
                Result::Ok(id) => has_user(self@.users, name@) && id as int == user_index(
                    self@.users,
                    name@,
                ) + 1,
                Result::Err(e) => !has_user(self@.users, name@) && e == StoreError::UserNotFound,
            },
    {
        match self.find_user(name) {
            Option::Some(i) => {
                proof {
                    let w = user_index(self@.users, name@);
                    assert(self@.users[w] == name@);
                    assert(w == i as int);
                }
                Result::Ok((i + 1) as i32)
            },
            Option::None => Result::Err(StoreError::UserNotFound),
        }
    }

    /// Creates the user unless a user with that name exists already.
    pub fn add_user(&mut self, name: Vec<u8>)
        requires
            old(self)@.wf(),
            old(self)@.users.len() < i32::MAX,
        ensures
            final(self)@.wf(),
            has_user(old(self)@.users, name@) ==> final(self)@ == old(self)@,
            !has_user(old(self)@.users, name@) ==> final(self)@ == (StoreModel {
                users: old(self)@.users.push(name@),
                ..old(self)@
            }),
            has_user(final(self)@.users, name@),
    {
        let ghost pre = self@;
        match self.find_user(&name) {
            Option::Some(_) => {
            },
            Option::None => {
                let ghost n = name@;
                self.users.push(name);
                proof {
                    assert(self@.users =~= pre.users.push(n));
                    assert(self@.rows == pre.rows);
                    assert(self@.users[pre.users.len() as int] == n);
                }
            },
        }
    }

    /// The id of the user with this name, creating the user first when the
    /// name is new: insert-or-select in one step.
    pub fn ensure_user(&mut self, name: &Vec<u8>) -> (id: i32)
        requires
            old(self)@.wf(),
            old(self)@.users.len() < i32::MAX,
        ensures
            final(self)@.wf(),
            has_user(old(self)@.users, name@) ==> final(self)@ == old(self)@,
            !has_user(old(self)@.users, name@) ==> final(self)@ == (StoreModel {
                users: old(self)@.users.push(name@),
                ..old(self)@
            }),
            has_user(final(self)@.users, name@),
            id as int == user_index(final(self)@.users, name@) + 1,
    {
        let name_copy = copy_range(name, 0, name.len());
        proof {
            assert(name_copy@ =~= name@);
        }
        self.add_user(name_copy);
        match self.get_user_id(name) {
            Result::Ok(id) => id,
            Result::Err(_) => {
                proof {
                    assert(false);
                }
                0
            },
        }
    }

    /// Records a model name and hands back its id; every call appends a
    /// fresh row, as the underlying table does.
    pub fn add_model(&mut self, model_name: &Vec<u8>) -> (id: i32)
        requires
            old(self)@.wf(),
            old(self)@.models.len() < i32::MAX,
        ensures
            final(self)@.wf(),
            final(self)@ == (StoreModel {
                models: old(self)@.models.push(model_name@),
                ..old(self)@
            }),
            id as int == old(self)@.models.len() + 1,
    {
        let ghost pre = self@;
        let copy = copy_range(model_name, 0, model_name.len());
        proof {
            assert(copy@ =~= model_name@);
        }
        let id = (self.models.len() + 1) as i32;
        self.models.push(copy);
        proof {
            assert(self@.models =~= pre.models.push(model_name@));
            assert(self@.rows == pre.rows);
        }
        id
    }

    /// The next fresh chat id for a user: one past the largest chat id the
    /// user has used, or one for a user with no chats yet.
    pub fn next_chat_id(&self, user_id: i32) -> (r: i32)
        requires
            self@.wf(),
            max_chat_id(self@.rows, user_id as int) < i32::MAX,
        ensures
            r as int == max_chat_id(self@.rows, user_id as int) + 1,
    {
        let mut best: i32 = 0;
        let mut found = false;
        let mut i: usize = 0;
        proof {
            assert(self@.rows.subrange(0, 0) =~= Seq::<RowModel>::empty());
        }
        while i < self.rows.len()
            invariant
                0 <= i <= self@.rows.len(),
                self.rows@.len() == self@.rows.len(),
                found == has_rows(self@.rows.subrange(0, i as int), user_id as int),
                best as int == max_chat_id(self@.rows.subrange(0, i as int), user_id as int),
                !found ==> best == 0,
            decreases self@.rows.len() - i,
        {
            let ghost prefix = self@.rows.subrange(0, i as int);
            let row_user = self.rows[i].user_id;
            let row_chat = self.rows[i].chat_id;
            if row_user == user_id {
                if !found || row_chat > best {
                    best = row_chat;
                }
                found = true;
            }
            proof {
                let prefix2 = self@.rows.subrange(0, i + 1);
                assert(prefix2.drop_last() =~= prefix);
                assert(prefix2.last() == self@.rows[i as int]);
                if has_rows(prefix, user_id as int) {
                    let w = choose|j: int|
                        0 <= j < prefix.len() && prefix[j].user_id == user_id as int;
                    assert(prefix2[w].user_id == user_id as int);
                }
                if has_rows(prefix2, user_id as int) && self@.rows[i as int].user_id
                    != user_id as int {
                    let w = choose|j: int|
                        0 <= j < prefix2.len() && prefix2[j].user_id == user_id as int;
                    assert(prefix[w].user_id == user_id as int);
                }
            }
            i += 1;
        }
        proof {
            assert(self@.rows.subrange(0, self@.rows.len() as int) =~= self@.rows);
        }
        best + 1
    }

    /// How many messages a chat holds.
    fn count_chat(&self, user_id: i32, chat_id: i32) -> (r: usize)
        requires
            self@.wf(),
        ensures
            r as int == chat_msgs(self@.rows, user_id as int, chat_id as int).len(),
            r <= self@.rows.len(),
    {
        let mut count: usize = 0;
        let mut i: usize = 0;
        proof {
            assert(self@.rows.subrange(0, 0) =~= Seq::<RowModel>::empty());
        }
        while i < self.rows.len()
            invariant
                0 <= i <= self@.rows.len(),
                self.rows@.len() == self@.rows.len(),
                count as int == chat_msgs(
                    self@.rows.subrange(0, i as int),
                    user_id as int,
                    chat_id as int,
                ).len(),
                count <= i,
            decreases self@.rows.len() - i,
        {
            let ghost prefix = self@.rows.subrange(0, i as int);
            proof {
                let prefix2 = self@.rows.subrange(0, i + 1);
                assert(prefix2.drop_last() =~= prefix);
                assert(prefix2.last() == self@.rows[i as int]);
            }
            if self.rows[i].user_id == user_id && self.rows[i].chat_id == chat_id {
                count += 1;
            }
            i += 1;
        }
        proof {
            assert(self@.rows.subrange(0, self@.rows.len() as int) =~= self@.rows);
        }
        count
    }

    /// The next dense message id of a chat: its message count plus one.
    pub fn next_message_id(&self, user_id: i32, chat_id: i32) -> (r: i32)
        requires
            self@.wf(),
            chat_msgs(self@.rows, user_id as int, chat_id as int).len() < i32::MAX,
        ensures
            r as int == chat_msgs(self@.rows, user_id as int, chat_id as int).len() + 1,
    {
        let count = self.count_chat(user_id, chat_id);
        (count + 1) as i32
    }

    /// Appends one message to a chat of the named user, assigning the next
    /// dense message id. Refused when no user has that name.
    pub fn add_message(
        &mut self,
        username: &Vec<u8>,
        model_id: i32,
        chat_id: i32,
        message: &Vec<u8>,
        timestamp: &Vec<u8>,
    ) -> (r: Result<(), StoreError>)
        requires
            old(self)@.wf(),
            old(self)@.rows.len() < i32::MAX,
        ensures
            final(self)@.wf(),
            match r {
                Result::Ok(()) => {
                    &&& has_user(old(self)@.users, username@)
                    &&& final(self)@ == (StoreModel {
                        rows: old(self)@.rows.push(
                            RowModel {
                                user_id: user_index(old(self)@.users, username@) + 1,
                                model_id: model_id as int,
                                chat_id: chat_id as int,
                                message_id: chat_msgs(
                                    old(self)@.rows,
                                    user_index(old(self)@.users, username@) + 1,
                                    chat_id as int,
                                ).len() as int + 1,
                                body: message@,
                                timestamp: timestamp@,
                            },
                        ),
                        ..old(self)@
                    })
                },
                Result::Err(e) => {
                    &&& !has_user(old(self)@.users, username@)
                    &&& e == StoreError::UserNotFound
                    &&& final(self)@ == old(self)@
                },
            },
    {
        let ghost pre = self@;
        let user_id = match self.get_user_id(username) {
            Result::Ok(id) => id,
            Result::Err(e) => {
                return Result::Err(e);
            },
        };
        proof {
            lemma_chat_msgs_len(pre.rows, user_id as int, chat_id as int);
        }
        let next_id = self.next_message_id(user_id, chat_id);
        let row = MessageRow {
            user_id,
            model_id,
            chat_id,
            message_id: next_id,
            body: copy_range(message, 0, message.len()),
            timestamp: copy_range(timestamp, 0, timestamp.len()),
        };
        let ghost rv = row@;
        self.rows.push(row);
        proof {
            assert(self@.rows =~= pre.rows.push(rv));
            assert(self@.users == pre.users);
            assert(self@.models == pre.models);
            assert(rv.body =~= message@);
            assert(rv.timestamp =~= timestamp@);
            let m = self@;
            assert forall|u: int, c: int, i: int|
                0 <= i < chat_msgs(m.rows, u, c).len() implies (#[trigger] chat_msgs(
                m.rows,
                u,
                c,
            )[i]).message_id == i + 1 by {
                lemma_chat_msgs_push(pre.rows, u, c, rv);
                if u == rv.user_id && c == rv.chat_id {
                    assert(chat_msgs(m.rows, u, c) =~= chat_msgs(pre.rows, u, c).push(rv));
                } else {
                    assert(chat_msgs(m.rows, u, c) =~= chat_msgs(pre.rows, u, c));
                }
            }
        }
        Result::Ok(())
    }

    /// The transcript of one chat: `(message_id, body, timestamp)` per
    /// message, in message-id order.
    pub fn retrieve_chat(&self, user_id: i32, chat_id: i32) -> (r: Vec<(i32, Vec<u8>, Vec<u8>)>)
        requires
            self@.wf(),
        ensures
            ({
                let msgs = chat_msgs(self@.rows, user_id as int, chat_id as int);
                &&& r@.len() == msgs.len()
                &&& forall|i: int|
                    0 <= i < msgs.len() ==> (#[trigger] r@[i]).0 as int == msgs[i].message_id
                        && r@[i].1@ == msgs[i].body && r@[i].2@ == msgs[i].timestamp
            }),
    {
        let mut r: Vec<(i32, Vec<u8>, Vec<u8>)> = Vec::new();
        let mut i: usize = 0;
        proof {
            assert(self@.rows.subrange(0, 0) =~= Seq::<RowModel>::empty());
        }
        while i < self.rows.len()
            invariant
                0 <= i <= self@.rows.len(),
                self.rows@.len() == self@.rows.len(),
                ({
                    let msgs = chat_msgs(
                        self@.rows.subrange(0, i as int),
                        user_id as int,
                        chat_id as int,
                    );
                    &&& r@.len() == msgs.len()
                    &&& forall|j: int|
                        0 <= j < msgs.len() ==> (#[trigger] r@[j]).0 as int == msgs[j].message_id
                            && r@[j].1@ == msgs[j].body && r@[j].2@ == msgs[j].timestamp
                }),
            decreases self@.rows.len() - i,
        {
            let ghost prefix = self@.rows.subrange(0, i as int);
            proof {
                let prefix2 = self@.rows.subrange(0, i + 1);
                assert(prefix2.drop_last() =~= prefix);
                assert(prefix2.last() == self@.rows[i as int]);
            }
            if self.rows[i].user_id == user_id && self.rows[i].chat_id == chat_id {
                let body = copy_range(&self.rows[i].body, 0, self.rows[i].body.len());
                let ts = copy_range(&self.rows[i].timestamp, 0, self.rows[i].timestamp.len());
                r.push((self.rows[i].message_id, body, ts));
            }
            i += 1;
        }
        proof {
            assert(self@.rows.subrange(0, self@.rows.len() as int) =~= self@.rows);
        }
        r
    }
}

/// The error body when a fetch names an unknown user.
pub open spec fn no_user_message() -> Seq<u8> {
    encode_utf8("no user exists with that name"@)
}

/// The error body when a fetch names a chat the user does not have.
pub open spec fn no_chat_message(username: Seq<u8>, chat_id: int) -> Seq<u8> {
    encode_utf8("no chat history found for user `"@) + username + encode_utf8(
        "` with chat ID `"@,
    ) + dec_int(chat_id) + encode_utf8("`"@)
}

impl ChatStore {
    /// Serves a fetch of one chat: the transcript when the user and the
    /// chat exist, and an error naming what is missing otherwise.
    pub fn fetch_chat(&self, request: &FetchRequest) -> (r: FetchResponse)
        requires
            self@.wf(),
        ensures
            ({
                let known = has_user(self@.users, request.username@);
                let uid = user_index(self@.users, request.username@) + 1;
                match r {
                    FetchResponse::Error { message } => {
                        if !known {
                            message@ == no_user_message()
                        } else {
                            &&& !has_chat(self@.rows, uid, request.chat_id as int)
                            &&& message@ == no_chat_message(
                                request.username@,
                                request.chat_id as int,
                            )
                        }
                    },
                    FetchResponse::Success { messages } => {
                        let msgs = chat_msgs(self@.rows, uid, request.chat_id as int);
                        &&& known
                        &&& has_chat(self@.rows, uid, request.chat_id as int)
                        &&& messages@.len() == msgs.len()
                        &&& forall|i: int|
                            0 <= i < msgs.len() ==> (#[trigger] messages@[i]).0 as int
                                == msgs[i].message_id && messages@[i].1@ == msgs[i].body
                                && messages@[i].2@ == msgs[i].timestamp
                    },
                }
            }),
    {
        let user_id = match self.get_user_id(&request.username) {
            Result::Ok(id) => id,
            Result::Err(_) => {
                let mut message: Vec<u8> = Vec::new();
                append_lit(&mut message, "no user exists with that name");
                proof {
                    assert(message@ =~= no_user_message());
                }
                return FetchResponse::Error { message };
            },
        };
        proof {
            lemma_chat_msgs_nonempty(self@.rows, user_id as int, request.chat_id as int);
        }
        let count = self.count_chat(user_id, request.chat_id);
        if count == 0 {
            let mut message: Vec<u8> = Vec::new();
            append_lit(&mut message, "no chat history found for user `");
            append_bytes(&mut message, &request.username);
            append_lit(&mut message, "` with chat ID `");
            let digits = format_i32(request.chat_id);
            append_bytes(&mut message, &digits);
            append_lit(&mut message, "`");
            return FetchResponse::Error { message };
        }
        let messages = self.retrieve_chat(user_id, request.chat_id);
        FetchResponse::Success { messages }
    }

    /// The latest message of one chat; meaningful when the chat exists.
    fn latest_body(&self, user_id: i32, chat_id: i32) -> (r: Vec<u8>)
        requires
            self@.wf(),
            has_chat(self@.rows, user_id as int, chat_id as int),
        ensures
            r@ == chat_msgs(self@.rows, user_id as int, chat_id as int).last().body,
    {
        proof {
            lemma_chat_msgs_nonempty(self@.rows, user_id as int, chat_id as int);
        }
        let mut best: Vec<u8> = Vec::new();
        let mut found = false;
        let mut i: usize = 0;
        proof {
            assert(self@.rows.subrange(0, 0) =~= Seq::<RowModel>::empty());
        }
        while i < self.rows.len()
            invariant
                0 <= i <= self@.rows.len(),
                self.rows@.len() == self@.rows.len(),
                ({
                    let msgs = chat_msgs(
                        self@.rows.subrange(0, i as int),
                        user_id as int,
                        chat_id as int,
                    );
                    &&& found == (msgs.len() > 0)
                    &&& found ==> best@ == msgs.last().body
                }),
            decreases self@.rows.len() - i,
        {
            let ghost prefix = self@.rows.subrange(0, i as int);
            proof {
                let prefix2 = self@.rows.subrange(0, i + 1);
                assert(prefix2.drop_last() =~= prefix);
                assert(prefix2.last() == self@.rows[i as int]);
            }
            if self.rows[i].user_id == user_id && self.rows[i].chat_id == chat_id {
                best = copy_range(&self.rows[i].body, 0, self.rows[i].body.len());
                found = true;
            }
            i += 1;
        }
        proof {
            assert(self@.rows.subrange(0, self@.rows.len() as int) =~= self@.rows);
        }
        best
    }

    /// A user's chat overview: each of the user's chats in ascending chat
    /// id order, with the latest message of each. A name nobody carries
    /// simply has no history.
    pub fn fetch_history(&self, request: &HistoryRequest) -> (r: Vec<HistoryResponse>)
        requires
            self@.wf(),
        ensures
            !has_user(self@.users, request.username@) ==> r@.len() == 0,
            ({
                let uid = user_index(self@.users, request.username@) + 1;
                has_user(self@.users, request.username@) ==> {
                    &&& (forall|a: int|
                        0 <= a < r@.len() ==> has_chat(
                            self@.rows,
                            uid,
                            (#[trigger] r@[a]).chat_id as int,
                        ))
                    &&& (forall|a: int, b: int|
                        0 <= a < b < r@.len() ==> (#[trigger] r@[a]).chat_id < (
                        #[trigger] r@[b]).chat_id)
                    &&& (forall|c: int|
                        has_chat(self@.rows, uid, c) ==> exists|a: int|
                            0 <= a < r@.len() && (#[trigger] r@[a]).chat_id as int == c)
                    &&& (forall|a: int|
                        0 <= a < r@.len() ==> (#[trigger] r@[a]).latest_msg@ == chat_msgs(
                            self@.rows,
                            uid,
                            r@[a].chat_id as int,
                        ).last().body)
                }
            }),
    {
        let user_id = match self.get_user_id(&request.username) {
            Result::Ok(id) => id,
            Result::Err(_) => {
                return Vec::new();
            },
        };
        let mut chats: Vec<i32> = Vec::new();
        let mut i: usize = 0;
        proof {
            assert(self@.rows.subrange(0, 0) =~= Seq::<RowModel>::empty());
        }
        while i < self.rows.len()
            invariant
                0 <= i <= self@.rows.len(),
                self.rows@.len() == self@.rows.len(),
                forall|a: int, b: int|
                    0 <= a < b < chats@.len() ==> #[trigger] chats@[a] < #[trigger] chats@[b],
                forall|a: int|
                    0 <= a < chats@.len() ==> has_chat(
                        self@.rows.subrange(0, i as int),
                        user_id as int,
                        (#[trigger] chats@[a]) as int,
                    ),
                forall|c: int|
                    has_chat(self@.rows.subrange(0, i as int), user_id as int, c) ==> exists|a: int|
                        0 <= a < chats@.len() && (#[trigger] chats@[a]) as int == c,
            decreases self@.rows.len() - i,
        {
            let ghost prefix = self@.rows.subrange(0, i as int);
            let ghost prefix2 = self@.rows.subrange(0, i + 1);
            proof {
                assert(prefix2.drop_last() =~= prefix);
                assert(prefix2.last() == self@.rows[i as int]);
            }
            let ghost pre_chats = chats@;
            if self.rows[i].user_id == user_id {
                let c = self.rows[i].chat_id;
                let mut j: usize = 0;
                while j < chats.len() && chats[j] < c
                    invariant
                        0 <= j <= chats@.len(),
                        chats@ == pre_chats,
                        forall|a: int| 0 <= a < j ==> #[trigger] chats@[a] < c,
                    decreases chats@.len() - j,
                {
                    j += 1;
                }
                if j == chats.len() || chats[j] > c {
                    chats.insert(j, c);
                    proof {
                        assert forall|a: int, b: int|
                            0 <= a < b < chats@.len() implies #[trigger] chats@[a]
                            < #[trigger] chats@[b] by {
                            if b < j {
                                assert(chats@[a] == pre_chats[a] && chats@[b] == pre_chats[b]);
                            } else if a < j && b == j {
                                assert(chats@[a] == pre_chats[a]);
                            } else if a < j && b > j {
                                assert(chats@[a] == pre_chats[a] && chats@[b] == pre_chats[b - 1]);
                            } else if a == j && b > j {
                                assert(chats@[b] == pre_chats[b - 1]);
                                assert(j < pre_chats.len() ==> c < pre_chats[j as int]);
                            } else {
                                assert(chats@[a] == pre_chats[a - 1] && chats@[b] == pre_chats[b
                                    - 1]);
                            }
                        }
                        assert(chats@[j as int] == c);
                    }
                }
                proof {
                    assert(exists|a: int| 0 <= a < chats@.len() && #[trigger] chats@[a] == c);
                    assert forall|cc: int|
                        has_chat(prefix2, user_id as int, cc) implies exists|a: int|
                        0 <= a < chats@.len() && (#[trigger] chats@[a]) as int == cc by {
                        let w = choose|w: int|
                            0 <= w < prefix2.len() && prefix2[w].user_id == user_id as int
                                && prefix2[w].chat_id == cc;
                        if w < prefix.len() {
                            assert(prefix[w].user_id == user_id as int && prefix[w].chat_id == cc);
                            assert(has_chat(prefix, user_id as int, cc));
                            let a0 = choose|a: int|
                                0 <= a < pre_chats.len() && (pre_chats[a]) as int == cc;
                            if chats@.len() == pre_chats.len() {
                                assert(chats@[a0] == pre_chats[a0]);
                            } else if a0 < j {
                                assert(chats@[a0] == pre_chats[a0]);
                            } else {
                                assert(chats@[a0 + 1] == pre_chats[a0]);
                            }
                        } else {
                            assert(cc == c as int);
                            let a0 = choose|a: int|
                                0 <= a < chats@.len() && #[trigger] chats@[a] == c;
                            assert((chats@[a0]) as int == cc);
                        }
                    }
                    assert forall|a: int|
                        0 <= a < chats@.len() implies has_chat(
                        prefix2,
                        user_id as int,
                        (#[trigger] chats@[a]) as int,
                    ) by {
                        if chats@[a] == c {
                            assert(prefix2[i as int].user_id == user_id as int
                                && prefix2[i as int].chat_id == c as int);
                        } else {
                            let v = chats@[a];
                            assert(exists|b: int| 0 <= b < pre_chats.len() && pre_chats[b] == v)
                                by {
                                if chats@.len() == pre_chats.len() {
                                    assert(pre_chats[a] == v);
                                } else if a < j {
                                    assert(pre_chats[a] == v);
                                } else if a == j {
                                    assert(chats@[a] == c);
                                } else {
                                    assert(pre_chats[a - 1] == v);
                                }
                            }
                            let b = choose|b: int| 0 <= b < pre_chats.len() && pre_chats[b] == v;
                            assert(has_chat(prefix, user_id as int, v as int));
                            let w = choose|w: int|
                                0 <= w < prefix.len() && prefix[w].user_id == user_id as int
                                    && prefix[w].chat_id == v as int;
                            assert(prefix2[w].user_id == user_id as int && prefix2[w].chat_id
                                == v as int);
                        }
                    }
                }
            } else {
                proof {
                    assert forall|cc: int|
                        has_chat(prefix2, user_id as int, cc) implies exists|a: int|
                        0 <= a < chats@.len() && (#[trigger] chats@[a]) as int == cc by {
                        let w = choose|w: int|
                            0 <= w < prefix2.len() && prefix2[w].user_id == user_id as int
                                && prefix2[w].chat_id == cc;
                        assert(w < prefix.len());
                        assert(prefix[w].user_id == user_id as int && prefix[w].chat_id == cc);
                        assert(has_chat(prefix, user_id as int, cc));
                    }
                    assert forall|a: int|
                        0 <= a < chats@.len() implies has_chat(
                        prefix2,
                        user_id as int,
                        (#[trigger] chats@[a]) as int,
                    ) by {
                        let w = choose|w: int|
                            0 <= w < prefix.len() && prefix[w].user_id == user_id as int
                                && prefix[w].chat_id == chats@[a] as int;
                        assert(prefix2[w].user_id == user_id as int && prefix2[w].chat_id
                            == chats@[a] as int);
                    }
                }
            }
            i += 1;
        }
        proof {
            assert(self@.rows.subrange(0, self@.rows.len() as int) =~= self@.rows);
        }
        let mut r: Vec<HistoryResponse> = Vec::new();
        let mut a: usize = 0;
        while a < chats.len()
            invariant
                0 <= a <= chats@.len(),
                self@.wf(),
                r@.len() == a,
                forall|x: int, y: int|
                    0 <= x < y < chats@.len() ==> #[trigger] chats@[x] < #[trigger] chats@[y],
                forall|x: int|
                    0 <= x < chats@.len() ==> has_chat(
                        self@.rows,
                        user_id as int,
                        (#[trigger] chats@[x]) as int,
                    ),
                forall|x: int| 0 <= x < a ==> (#[trigger] r@[x]).chat_id == chats@[x],
                forall|x: int|
                    0 <= x < a ==> (#[trigger] r@[x]).latest_msg@ == chat_msgs(
                        self@.rows,
                        user_id as int,
                        chats@[x] as int,
                    ).last().body,
            decreases chats@.len() - a,
        {
            let c = chats[a];
            let body = self.latest_body(user_id, c);
            r.push(HistoryResponse { chat_id: c, latest_msg: body });
            a += 1;
        }
        proof {
            assert forall|c: int|
                has_chat(self@.rows, user_id as int, c) implies exists|x: int|
                0 <= x < r@.len() && (#[trigger] r@[x]).chat_id as int == c by {
                let x = choose|x: int| 0 <= x < chats@.len() && (chats@[x]) as int == c;
                assert(r@[x].chat_id as int == c);
            }
        }
        r
    }
}

/// Law: within every chat, message ids are dense from one: the i-th
/// message of a chat carries id i + 1, with no gaps and no repeats.
pub proof fn lemma_message_ids_dense(m: StoreModel, u: int, c: int)
    requires
        m.wf(),
    ensures
        forall|i: int|
            0 <= i < chat_msgs(m.rows, u, c).len() ==> (#[trigger] chat_msgs(
                m.rows,
                u,
                c,
            )[i]).message_id == i + 1,
{
}

/// Law: user lookup is a function of the name: with distinct names, any
/// two positions holding the name agree, so `ensure_user` called twice
/// with one name yields one id.
pub proof fn lemma_user_index_unique(users: Seq<Seq<u8>>, name: Seq<u8>, i: int)
    requires
        forall|a: int, b: int| 0 <= a < b < users.len() ==> #[trigger] users[a] != #[trigger] users[b],
        0 <= i < users.len(),
        users[i] == name,
    ensures
        user_index(users, name) == i,
{
    let w = user_index(users, name);
    assert(users[w] == name);
    if w < i {
        assert(users[w] != users[i]);
    }
    if i < w {
        assert(users[i] != users[w]);
    }
}

} // verus!
