//! `GET` and `SET` on plain keys.
use vstd::prelude::*;
use vstd::utf8::*;
use crate::backend::{Backend, BackendModel};
use crate::resp::frame::{BulkString, FrameModel, RespArray, RespFrame, RespNull};
use super::{
    bulk_text, elements_model, is_bulk, name_views, ok_reply, resp_ok, text_arg, valid_args,
    valid_command, CommandError, CommandErrorModel, CommandExecutor, CommandGet, CommandSet,
};

verus! {

broadcast use vstd::array::group_array_axioms;

/// What `CommandGet::try_from` makes of a request with `elements`: the key, or the error.
pub open spec fn get_request(elements: Option<Seq<FrameModel>>) -> Result<
    Seq<char>,
    CommandErrorModel,
> {
    match valid_args(elements, seq!["GET"@], 1) {
        Err(e) => Err(e),
        Ok(args) => text_arg(args[0], "GET command expect bulk string"@),
    }
}

/// What `CommandSet::try_from` makes of a request with `elements`: the key and the
/// value, or the error.
pub open spec fn set_request(elements: Option<Seq<FrameModel>>) -> Result<
    (Seq<char>, FrameModel),
    CommandErrorModel,
> {
    match valid_args(elements, seq!["SET"@], 2) {
        Err(e) => Err(e),
        Ok(args) => if is_bulk(args[0]) && is_bulk(args[1]) {
            match text_arg(args[0], ""@) {
                Ok(k) => Ok((k, args[1])),
                Err(e) => Err(e),
            }
        } else {
            Err(CommandErrorModel::InvalidArguments("SET command expect bulk string"@))
        },
    }
}

/// What `GET key` does to a store that held `before`: nothing; it replies with the
/// frame under the key, or null.
pub open spec fn get_outcome(before: BackendModel, key: Seq<char>) -> (BackendModel, FrameModel) {
    (
        before,
        match before.value(key) {
            Some(f) => f,
            None => FrameModel::Null,
        },
    )
}

/// What `SET key value` does to a store that held `before`: the key holds the value;
/// it replies `OK`.
pub open spec fn set_outcome(before: BackendModel, key: Seq<char>, value: FrameModel) -> (
    BackendModel,
    FrameModel,
) {
    (before.set(key, value), ok_reply())
}

impl CommandGet {
    /// Reads `GET key` from a request array.
    pub fn try_from(value: RespArray) -> (r: Result<CommandGet, CommandError>)
        ensures
            match r {
                Ok(c) => get_request(elements_model(value)) == Ok::<
                    Seq<char>,
                    CommandErrorModel,
                >(c.key@),
                Err(e) => get_request(elements_model(value)) == Err::<
                    Seq<char>,
                    CommandErrorModel,
                >(e@),
            },
    {
        let names: [&'static str; 1] = ["GET"];
        let names = vstd::array::array_as_slice(&names);
        assert(name_views(names@) =~= seq!["GET"@]);
        let args = match valid_command(&value, names, 1) {
            Ok(a) => a,
            Err(e) => return Err(e),
        };
        let ghost a = valid_args(elements_model(value), seq!["GET"@], 1)->Ok_0;
        assert(args@[0].model() == a[0]);
        match args[0] {
            RespFrame::BulkString(BulkString { content: Some(key) }) => match bulk_text(key) {
                Ok(k) => Ok(CommandGet { key: k }),
                Err(e) => Err(e),
            },
            _ => Err(CommandError::InvalidArguments("GET command expect bulk string".to_owned())),
        }
    }
}

impl CommandSet {
    /// Reads `SET key value` from a request array; the value must be a bulk string.
    pub fn try_from(value: RespArray) -> (r: Result<CommandSet, CommandError>)
        ensures
            match r {
                Ok(c) => set_request(elements_model(value)) == Ok::<
                    (Seq<char>, FrameModel),
                    CommandErrorModel,
                >((c.key@, c.value@)),
                Err(e) => set_request(elements_model(value)) == Err::<
                    (Seq<char>, FrameModel),
                    CommandErrorModel,
                >(e@),
            },
    {
        let names: [&'static str; 1] = ["SET"];
        let names = vstd::array::array_as_slice(&names);
        assert(name_views(names@) =~= seq!["SET"@]);
        let args = match valid_command(&value, names, 2) {
            Ok(a) => a,
            Err(e) => return Err(e),
        };
        let ghost a = valid_args(elements_model(value), seq!["SET"@], 2)->Ok_0;
        assert(args@[0].model() == a[0] && args@[1].model() == a[1]);
        match (args[0], args[1]) {
            (
                RespFrame::BulkString(BulkString { content: Some(key) }),
                RespFrame::BulkString(BulkString { content: Some(data) }),
            ) => match bulk_text(key) {
                Ok(k) => Ok(
                    CommandSet {
                        key: k,
                        value: RespFrame::BulkString(
                            BulkString { content: Some(vstd::slice::slice_to_vec(data.as_slice())) },
                        ),
                    },
                ),
                Err(e) => Err(e),
            },
            _ => Err(CommandError::InvalidArguments("SET command expect bulk string".to_owned())),
        }
    }
}

impl CommandExecutor for CommandGet {
    /// The store is unchanged; the reply is the frame under the key, or null.
    open spec fn outcome(&self, before: BackendModel) -> (BackendModel, FrameModel) {
        get_outcome(before, self.key@)
    }

    fn execute(self, backend: &mut Backend) -> (r: RespFrame) {
        match backend.get(self.key.as_str()) {
            Some(f) => f,
            None => RespFrame::RespNull(RespNull),
        }
    }
}

impl CommandExecutor for CommandSet {
    /// The key now holds the value; the reply is `OK`.
    open spec fn outcome(&self, before: BackendModel) -> (BackendModel, FrameModel) {
        set_outcome(before, self.key@, self.value@)
    }

    fn execute(self, backend: &mut Backend) -> (r: RespFrame) {
        backend.set(self.key, self.value);
        resp_ok()
    }
}

/// `GET` after `SET` of the same key replies with the value that was set.
pub proof fn lemma_get_after_set_command(m: BackendModel, set: CommandSet, get: CommandGet)
    requires
        get.key@ == set.key@,
    ensures
        get.outcome(set.outcome(m).0).1 == set.value@,
        set.outcome(m).1 == ok_reply(),
{
}

} // verus!
