//! Commands: checking a request array against a command's shape, turning it into a
//! command, and running the command against the store.
use vstd::prelude::*;
use vstd::utf8::*;
use crate::backend::{Backend, BackendModel};
use crate::resp::{ErrorModel, RespError};
use crate::resp::frame::{BulkString, FrameModel, RespArray, RespFrame, SimpleString};
use crate::resp::debug::{frame_debug, frame_debug_text, str_debug, str_debug_text};
use crate::text::{ascii_text, ascii_to_string, dec, lemma_dec_ascii, list_debug, list_debug_string,
    lower, lower_byte, push_decimal};

pub mod hmap;
pub mod map;
pub mod laws;

verus! {

broadcast use vstd::utf8::group_utf8_lib;

/// Why a request could not be turned into a command.
#[derive(Debug, PartialEq)]
pub enum CommandError {
    InvalidCommand(String),
    InvalidArguments(String),
    RespErr(RespError),
    InvalidNumberOfArguments(String),
    /// An argument that should be text is not UTF-8; it carries the bytes.
    InvalidUtf8(Vec<u8>),
}

/// The mathematical value of a [`CommandError`].
pub enum CommandErrorModel {
    InvalidCommand(Seq<char>),
    InvalidArguments(Seq<char>),
    RespErr(ErrorModel),
    InvalidNumberOfArguments(Seq<char>),
    InvalidUtf8(Seq<u8>),
}

impl View for CommandError {
    type V = CommandErrorModel;

    open spec fn view(&self) -> CommandErrorModel {
        match self {
            CommandError::InvalidCommand(m) => CommandErrorModel::InvalidCommand(m@),
            CommandError::InvalidArguments(m) => CommandErrorModel::InvalidArguments(m@),
            CommandError::RespErr(e) => CommandErrorModel::RespErr(e@),
            CommandError::InvalidNumberOfArguments(m) => CommandErrorModel::InvalidNumberOfArguments(m@),
            CommandError::InvalidUtf8(b) => CommandErrorModel::InvalidUtf8(b@),
        }
    }
}

impl From<RespError> for CommandError {
    fn from(e: RespError) -> (r: Self) {
        CommandError::RespErr(e)
    }
}

impl vstd::std_specs::convert::FromSpecImpl<RespError> for CommandError {
    open spec fn obeys_from_spec() -> bool {
        true
    }

    open spec fn from_spec(v: RespError) -> CommandError {
        CommandError::RespErr(v)
    }
}

/// The reply `+OK\r\n`.
pub open spec fn ok_reply() -> FrameModel {
    FrameModel::SimpleString("OK"@)
}

/// The reply of a command that stored something: the simple string `OK`.
pub fn resp_ok() -> (r: RespFrame)
    ensures
        r@ == ok_reply(),
{
    RespFrame::SimpleString(SimpleString { content: "OK".to_owned() })
}

/// The text of each name.
pub open spec fn name_views(names: Seq<&str>) -> Seq<Seq<char>> {
    names.map_values(|n: &str| n@)
}

/// The names joined with single spaces.
pub open spec fn join_words(names: Seq<Seq<char>>) -> Seq<char>
    decreases names.len(),
{
    if names.len() == 0 {
        Seq::empty()
    } else if names.len() == 1 {
        names[0]
    } else {
        join_words(names.drop_last()) + " "@ + names.last()
    }
}

/// The ASCII lowercase of bytes.
pub open spec fn lower_bytes(b: Seq<u8>) -> Seq<u8> {
    b.map_values(|x: u8| lower(x))
}

/// A number in decimal, as text.
pub open spec fn num_text(n: nat) -> Seq<char> {
    ascii_text(dec(n))
}

/// The message of a request whose length does not fit the command.
pub open spec fn count_msg(names: Seq<Seq<char>>, n_args: nat, got: nat) -> Seq<char> {
    join_words(names) + " command expects "@ + num_text(n_args) + " arguments, got "@ + num_text(
        got,
    )
}

/// The argument at `i` is a bulk string that spells `name`, ignoring ASCII case.
pub open spec fn name_ok(f: FrameModel, name: Seq<char>) -> bool {
    match f {
        FrameModel::BulkString(Some(b)) => lower_bytes(b) == lower_bytes(encode_utf8(name)),
        _ => false,
    }
}

/// The error for an argument at `i` that does not spell `names[i]`.
pub open spec fn name_error(names: Seq<Seq<char>>, i: nat, f: FrameModel) -> CommandErrorModel {
    match f {
        FrameModel::BulkString(Some(b)) => CommandErrorModel::InvalidArguments(
            join_words(names) + " command must have the "@ + num_text(i) + " argument: expect "@
                + str_debug_text(names[i as int]) + ", but got "@ + ascii_text(list_debug(b)),
        ),
        _ => CommandErrorModel::InvalidArguments(
            join_words(names) + " command must have a bulk string as the "@ + num_text(i)
                + " argument: expect "@ + str_debug_text(names[i as int]) + " find, but got "@
                + frame_debug_text(f),
        ),
    }
}

/// The error for the first argument from `i` on that does not spell its name.
pub open spec fn names_check(es: Seq<FrameModel>, names: Seq<Seq<char>>, i: nat) -> Option<
    CommandErrorModel,
>
    decreases names.len() - i,
{
    if i >= names.len() {
        None
    } else if !name_ok(es[i as int], names[i as int]) {
        Some(name_error(names, i, es[i as int]))
    } else {
        names_check(es, names, i + 1)
    }
}

/// `valid_command` can look at every name it is given: the names fit in the
/// request, or a request of the right length already fails on an earlier name.
pub open spec fn names_fit(
    elements: Option<Seq<FrameModel>>,
    names: Seq<Seq<char>>,
    n_args: nat,
) -> bool {
    names.len() <= n_args + 1 || match elements {
        None => true,
        Some(es) => es.len() != n_args + 1 || names_check(es, names.take(es.len() as int), 0)
            is Some,
    }
}

/// A name that fails from `i` on fails at an index the names reach.
proof fn lemma_names_check_some(es: Seq<FrameModel>, names: Seq<Seq<char>>, i: nat)
    requires
        names_check(es, names, i) is Some,
    ensures
        i < names.len(),
{
}

/// What `valid_command` gives for a request with `elements`: the arguments after the
/// names, or why the request does not fit a command named `names` taking `n_args`
/// arguments (the names count among them).
pub open spec fn valid_args(
    elements: Option<Seq<FrameModel>>,
    names: Seq<Seq<char>>,
    n_args: nat,
) -> Result<Seq<FrameModel>, CommandErrorModel> {
    match elements {
        None => Err(
            CommandErrorModel::InvalidArguments(
                join_words(names) + " command expects "@ + num_text(n_args) + " arguments, got 0"@,
            ),
        ),
        Some(es) => if es.len() != n_args + 1 {
            Err(CommandErrorModel::InvalidNumberOfArguments(count_msg(names, n_args, es.len())))
        } else {
            match names_check(es, names, 0) {
                Some(e) => Err(e),
                None => Ok(es.skip(names.len() as int)),
            }
        },
    }
}

/// The values of the elements of an array.
pub open spec fn elements_model(a: RespArray) -> Option<Seq<FrameModel>> {
    match a.elements {
        Some(v) => Some(crate::resp::frame::models(v@)),
        None => None,
    }
}

/// A number in decimal, as a `String`.
fn num_string(n: usize) -> (s: String)
    ensures
        s@ == num_text(n as nat),
{
    let mut v: Vec<u8> = Vec::new();
    push_decimal(&mut v, n as u64);
    proof {
        lemma_dec_ascii(n as nat);
    }
    ascii_to_string(v)
}

/// The names joined with single spaces.
fn join_names(names: &[&str]) -> (r: String)
    ensures
        r@ == join_words(name_views(names@)),
{
    let mut r = String::new();
    let mut i: usize = 0;
    while i < names.len()
        invariant
            i <= names@.len(),
            r@ == join_words(name_views(names@.take(i as int))),
        decreases names@.len() - i,
    {
        let ghost before = name_views(names@.take(i as int));
        let ghost after = name_views(names@.take(i + 1));
        assert(after.drop_last() =~= before);
        assert(after.last() == names@[i as int]@);
        if i > 0 {
            r.append(" ");
        } else {
            assert(before =~= Seq::<Seq<char>>::empty());
        }
        r.append(names[i]);
        i = i + 1;
        assert(r@ =~= join_words(name_views(names@.take(i as int))));
    }
    assert(names@.take(names@.len() as int) =~= names@);
    r
}

/// Whether two byte strings are equal once both are lowercased.
fn same_lowercase(a: &[u8], b: &[u8]) -> (r: bool)
    ensures
        r == (lower_bytes(a@) == lower_bytes(b@)),
{
    if a.len() != b.len() {
        assert(lower_bytes(a@).len() != lower_bytes(b@).len());
        return false;
    }
    let mut i: usize = 0;
    while i < a.len()
        invariant
            i <= a@.len(),
            a@.len() == b@.len(),
            forall|j: int| 0 <= j < i ==> lower(#[trigger] a@[j]) == lower(b@[j]),
        decreases a@.len() - i,
    {
        if lower_byte(a[i]) != lower_byte(b[i]) {
            assert(lower_bytes(a@)[i as int] != lower_bytes(b@)[i as int]);
            return false;
        }
        i = i + 1;
    }
    assert(lower_bytes(a@) =~= lower_bytes(b@));
    true
}

/// Checks that a request array has `n_args + 1` elements whose first ones are bulk
/// strings spelling `name_slice` (ignoring ASCII case), and gives the elements after
/// the names.
pub fn valid_command<'a>(value: &'a RespArray, name_slice: &[&'static str], n_args: usize) -> (r:
    Result<Vec<&'a RespFrame>, CommandError>)
    requires
        value.elements is None || n_args < usize::MAX,
        names_fit(elements_model(*value), name_views(name_slice@), n_args as nat),
    ensures
        match r {
            Ok(v) => valid_args(elements_model(*value), name_views(name_slice@), n_args as nat)
                matches Ok(args) && args.len() == v@.len() && forall|i: int|
                0 <= i < v@.len() ==> #[trigger] v@[i].model() == args[i],
            Err(e) => valid_args(elements_model(*value), name_views(name_slice@), n_args as nat)
                == Err::<Seq<FrameModel>, CommandErrorModel>(e@),
        },
{
    let ghost names = name_views(name_slice@);
    match &value.elements {
        Some(elements) => {
            proof {
                crate::resp::frame::lemma_models(elements@);
            }
            let ghost es = crate::resp::frame::models(elements@);
            assert(elements_model(*value) == Some(es));
            if elements.len() != n_args + 1 {
                let mut m = join_names(name_slice);
                m.append(" command expects ");
                let a = num_string(n_args);
                m.append(a.as_str());
                m.append(" arguments, got ");
                let b = num_string(elements.len());
                m.append(b.as_str());
                return Err(CommandError::InvalidNumberOfArguments(m));
            }
            let mut i: usize = 0;
            while i < name_slice.len()
                invariant
                    i <= name_slice@.len(),
                    name_slice@.len() > elements@.len() ==> names_check(
                        es,
                        names.take(es.len() as int),
                        i as nat,
                    ) is Some,
                    es == crate::resp::frame::models(elements@),
                    elements_model(*value) == Some(es),
                    es.len() == elements@.len(),
                    es.len() == n_args + 1,
                    forall|j: int| 0 <= j < elements@.len() ==> #[trigger] es[j] == elements@[j].model(),
                    names == name_views(name_slice@),
                    names_check(es, names, 0) == names_check(es, names, i as nat),
                decreases name_slice@.len() - i,
            {
                proof {
                    if name_slice@.len() > elements@.len() {
                        lemma_names_check_some(es, names.take(es.len() as int), i as nat);
                    }
                }
                let name = name_slice[i];
                assert(names[i as int] == name@);
                match &elements[i] {
                    RespFrame::BulkString(BulkString { content: Some(bytes) }) => {
                        if !same_lowercase(bytes.as_slice(), name.as_bytes()) {
                            let mut m = join_names(name_slice);
                            m.append(" command must have the ");
                            let a = num_string(i);
                            m.append(a.as_str());
                            m.append(" argument: expect ");
                            let d = str_debug(name);
                            m.append(d.as_str());
                            m.append(", but got ");
                            let g = list_debug_string(bytes.as_slice());
                            m.append(g.as_str());
                            return Err(CommandError::InvalidArguments(m));
                        }
                    },
                    _ => {
                        let mut m = join_names(name_slice);
                        m.append(" command must have a bulk string as the ");
                        let a = num_string(i);
                        m.append(a.as_str());
                        m.append(" argument: expect ");
                        let d = str_debug(name);
                        m.append(d.as_str());
                        m.append(" find, but got ");
                        let g = frame_debug(&elements[i]);
                        m.append(g.as_str());
                        return Err(CommandError::InvalidArguments(m));
                    },
                }
                proof {
                    if name_slice@.len() > elements@.len() {
                        let t = names.take(es.len() as int);
                        assert(t[i as int] == names[i as int]);
                    }
                }
                i = i + 1;
            }
            proof {
                if name_slice@.len() > elements@.len() {
                    lemma_names_check_some(es, names.take(es.len() as int), i as nat);
                }
            }
            let mut out: Vec<&'a RespFrame> = Vec::new();
            let mut j: usize = name_slice.len();
            while j < elements.len()
                invariant
                    name_slice@.len() <= j <= elements@.len(),
                    out@.len() == j - name_slice@.len(),
                    forall|x: int|
                        0 <= x < out@.len() ==> #[trigger] out@[x].model() == elements@[x
                            + name_slice@.len()].model(),
                decreases elements@.len() - j,
            {
                out.push(&elements[j]);
                j = j + 1;
            }
            Ok(out)
        },
        None => {
            let mut m = join_names(name_slice);
            m.append(" command expects ");
            let a = num_string(n_args);
            m.append(a.as_str());
            m.append(" arguments, got 0");
            Err(CommandError::InvalidArguments(m))
        },
    }
}

/// Running a command against the store.
pub trait CommandExecutor: Sized {
    /// The store after the command, and the reply, for a store that held `before`.
    spec fn outcome(&self, before: BackendModel) -> (BackendModel, FrameModel);

    /// Runs the command and gives the reply.
    fn execute(self, backend: &mut Backend) -> (r: RespFrame)
        ensures
            (final(backend)@, r@) == self.outcome(old(backend)@),
    ;
}

/// The commands a request can name.
pub enum Command {
    Ping,
    SetKey(CommandSet),
    Get(CommandGet),
    HGet(CommandHGet),
    HGetAll,
}

/// `GET key`
#[derive(Debug)]
pub struct CommandGet {
    pub key: String,
}

/// `SET key value`
#[derive(Debug)]
pub struct CommandSet {
    pub key: String,
    pub value: RespFrame,
}

/// `HGET key field`
#[derive(Debug)]
pub struct CommandHGet {
    pub key: String,
    pub field: String,
}

/// `HGETALL key`
#[derive(Debug)]
pub struct CommandHGetAll {
    pub key: String,
}

/// `HSET key field value`
#[derive(Debug)]
pub struct CommandHSet {
    pub key: String,
    pub field: String,
    pub value: RespFrame,
}

/// An argument that must be a bulk string of UTF-8 text: its text, or the error.
pub open spec fn text_arg(f: FrameModel, msg: Seq<char>) -> Result<Seq<char>, CommandErrorModel> {
    match f {
        FrameModel::BulkString(Some(b)) => if valid_utf8(b) {
            Ok(decode_utf8(b))
        } else {
            Err(CommandErrorModel::InvalidUtf8(b))
        },
        _ => Err(CommandErrorModel::InvalidArguments(msg)),
    }
}

/// An argument is a bulk string with content.
pub open spec fn is_bulk(f: FrameModel) -> bool {
    f matches FrameModel::BulkString(Some(_))
}

/// Turns the content of a bulk string into text.
fn bulk_text(bytes: &Vec<u8>) -> (r: Result<String, CommandError>)
    ensures
        match r {
            Ok(s) => valid_utf8(bytes@) && s@ == decode_utf8(bytes@),
            Err(e) => !valid_utf8(bytes@) && e@ == CommandErrorModel::InvalidUtf8(bytes@),
        },
{
    let copy = vstd::slice::slice_to_vec(bytes.as_slice());
    match crate::text::utf8_to_string(copy) {
        Some(s) => Ok(s),
        None => Err(CommandError::InvalidUtf8(vstd::slice::slice_to_vec(bytes.as_slice()))),
    }
}

/// What a request array with `elements` does to a store that held `before`: the first
/// of `GET`, `SET`, `HGET`, `HGETALL` and `HSET` whose reader accepts the request runs;
/// when none does, the request is an invalid command, named by its `{:?}` text.
pub open spec fn run_outcome(elements: Option<Seq<FrameModel>>, before: BackendModel) -> Result<
    (BackendModel, FrameModel),
    CommandErrorModel,
> {
    if let Ok(k) = map::get_request(elements) {
        Ok(map::get_outcome(before, k))
    } else if let Ok((k, v)) = map::set_request(elements) {
        Ok(map::set_outcome(before, k, v))
    } else if let Ok((k, f)) = hmap::hget_request(elements) {
        Ok(hmap::hget_outcome(before, k, f))
    } else if let Ok(k) = hmap::hgetall_request(elements) {
        Ok(hmap::hgetall_outcome(before, k))
    } else if let Ok((k, f, v)) = hmap::hset_request(elements) {
        Ok(hmap::hset_outcome(before, k, f, v))
    } else {
        Err(CommandErrorModel::InvalidCommand(frame_debug_text(FrameModel::Array(elements))))
    }
}

/// A copy of a request array.
fn copy_array(a: &RespArray) -> (r: RespArray)
    ensures
        elements_model(r) == elements_model(*a),
{
    match &a.elements {
        Some(v) => RespArray { elements: Some(crate::resp::frame::duplicate_all(v)) },
        None => RespArray { elements: None },
    }
}

/// Runs a request array against the store: the first of `GET`, `SET`, `HGET`,
/// `HGETALL` and `HSET` whose reader accepts it, or an invalid command.
pub fn run(array: RespArray, backend: &mut Backend) -> (r: Result<RespFrame, CommandError>)
    ensures
        match run_outcome(elements_model(array), old(backend)@) {
            Ok((after, reply)) => r matches Ok(f) && f@ == reply && final(backend)@ == after,
            Err(e) => r matches Err(x) && x@ == e && final(backend)@ == old(backend)@,
        },
{
    if let Ok(cmd) = CommandGet::try_from(copy_array(&array)) {
        return Ok(cmd.execute(backend));
    }
    if let Ok(cmd) = CommandSet::try_from(copy_array(&array)) {
        return Ok(cmd.execute(backend));
    }
    if let Ok(cmd) = CommandHGet::try_from(copy_array(&array)) {
        return Ok(cmd.execute(backend));
    }
    if let Ok(cmd) = CommandHGetAll::try_from(copy_array(&array)) {
        return Ok(cmd.execute(backend));
    }
    if let Ok(cmd) = CommandHSet::try_from(copy_array(&array)) {
        return Ok(cmd.execute(backend));
    }
    let frame = RespFrame::Array(array);
    let text = frame_debug(&frame);
    Err(CommandError::InvalidCommand(text))
}

} // verus!
