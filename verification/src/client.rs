//! Client-side logic.
//!
//! The sender half turns one line of local input into a command and a
//! payload and frames them; the receiver half classifies a decoded message
//! and decides what to do with it: print a text line, stage a file or image
//! payload under its directory, or report an unknown command and carry on.
//! Reading input, writing sockets and touching the filesystem all happen
//! outside this crate; the functions here only decide.

use crate::codec::FrameError;
use crate::codec::MAX_COMMAND;
use crate::codec::MAX_FRAME;
use crate::codec::Message;
use crate::codec::SPACE;
use crate::codec::encode;
use crate::codec::find_byte;
use crate::codec::is_token_byte;
use crate::codec::lemma_find_byte_witness;
use crate::codec::spec_frame;
use crate::codec::subvec;
use crate::codec::token_shaped;
use vstd::prelude::*;

verus! {

/// What went wrong on the client.
#[derive(Debug)]
pub enum ClientError {
    /// An input or output operation failed.
    Io,
    /// The filesystem refused access.
    PermissionDenied,
    /// The named directory exists but cannot be written.
    NotWritable(String),
    /// The named directory could not be created.
    CreateDirFailed(String),
    /// The named directory already exists.
    AlreadyExists(String),
}

/// The message tags the protocol recognizes; anything else on the wire is
/// surfaced as `Unknown` and left to the application.
#[derive(Debug, Clone, Copy, PartialEq, Eq, Structural)]
pub enum Command {
    Text,
    Image,
    File,
    Unknown,
}

/// What the receiver does with one decoded message.
pub enum ClientAction {
    /// Print the payload as one line of output.
    PrintLine(Vec<u8>),
    /// Make sure `dir` exists, then stage the payload there.
    Stage { dir: Vec<u8>, payload: Vec<u8> },
    /// Say that the command is not recognized and keep going.
    ReportUnknown,
}

/// The wire token `TEXT`.
pub open spec fn text_token() -> Seq<u8> {
    seq![84u8, 69u8, 88u8, 84u8]
}

/// The wire token `IMAGE`.
pub open spec fn image_token() -> Seq<u8> {
    seq![73u8, 77u8, 65u8, 71u8, 69u8]
}

/// The wire token `FILE`.
pub open spec fn file_token() -> Seq<u8> {
    seq![70u8, 73u8, 76u8, 69u8]
}

/// The wire token each known command is sent as.
pub open spec fn spec_wire(c: Command) -> Seq<u8> {
    match c {
        Command::Text => text_token(),
        Command::Image => image_token(),
        Command::File => file_token(),
        Command::Unknown => Seq::empty(),
    }
}

/// How a received wire token is classified.
pub open spec fn spec_kind(t: Seq<u8>) -> Command {
    if t == text_token() {
        Command::Text
    } else if t == image_token() {
        Command::Image
    } else if t == file_token() {
        Command::File
    } else {
        Command::Unknown
    }
}

/// The known wire tokens are valid, distinct command tokens.
pub proof fn lemma_wire_tokens()
    ensures
        token_shaped(text_token()),
        token_shaped(image_token()),
        token_shaped(file_token()),
        text_token().len() <= MAX_COMMAND,
        image_token().len() <= MAX_COMMAND,
        file_token().len() <= MAX_COMMAND,
        spec_kind(text_token()) == Command::Text,
        spec_kind(image_token()) == Command::Image,
        spec_kind(file_token()) == Command::File,
{
    assert forall|i: int| 0 <= i < text_token().len() implies is_token_byte(text_token()[i]) by {
        if i == 0 {
        } else if i == 1 {
        } else if i == 2 {
        } else {
            assert(i == 3);
        }
    }
    assert forall|i: int| 0 <= i < image_token().len() implies is_token_byte(image_token()[i]) by {
        if i == 0 {
        } else if i == 1 {
        } else if i == 2 {
        } else if i == 3 {
        } else {
            assert(i == 4);
        }
    }
    assert forall|i: int| 0 <= i < file_token().len() implies is_token_byte(file_token()[i]) by {
        if i == 0 {
        } else if i == 1 {
        } else if i == 2 {
        } else {
            assert(i == 3);
        }
    }
    assert(image_token()[0] != text_token()[0]);
    assert(file_token()[0] != text_token()[0]);
    assert(file_token()[0] != image_token()[0]);
}

/// Whether two byte vectors hold the same bytes.
fn eq_bytes(a: &Vec<u8>, b: &Vec<u8>) -> (r: bool)
    ensures
        r == (a@ == b@),
{
    if a.len() != b.len() {
        return false;
    }
    let mut i: usize = 0;
    while i < a.len()
        invariant
            i <= a.len() == b.len(),
            forall|j: int| 0 <= j < i ==> a@[j] == b@[j],
        decreases a.len() - i,
    {
        if a[i] != b[i] {
            return false;
        }
        i = i + 1;
    }
    proof {
        assert(a@ =~= b@);
    }
    true
}

/// The wire token of a known command.
pub fn wire_token(c: Command) -> (r: Vec<u8>)
    requires
        c != Command::Unknown,
    ensures
        r@ == spec_wire(c),
{
    let mut r: Vec<u8> = Vec::new();
    match c {
        Command::Text => {
            r.push(84);
            r.push(69);
            r.push(88);
            r.push(84);
            proof {
                assert(r@ =~= text_token());
            }
        },
        Command::Image => {
            r.push(73);
            r.push(77);
            r.push(65);
            r.push(71);
            r.push(69);
            proof {
                assert(r@ =~= image_token());
            }
        },
        Command::File => {
            r.push(70);
            r.push(73);
            r.push(76);
            r.push(69);
            proof {
                assert(r@ =~= file_token());
            }
        },
        Command::Unknown => {
            proof {
                assert(false);
            }
        },
    }
    r
}

/// Classifies a received wire token.
pub fn command_kind(token: &Vec<u8>) -> (r: Command)
    ensures
        r == spec_kind(token@),
{
    let text = wire_token(Command::Text);
    if eq_bytes(token, &text) {
        return Command::Text;
    }
    let image = wire_token(Command::Image);
    if eq_bytes(token, &image) {
        return Command::Image;
    }
    let file = wire_token(Command::File);
    if eq_bytes(token, &file) {
        return Command::File;
    }
    Command::Unknown
}

/// Frames one outgoing message: the command's wire token, then the payload.
/// Succeeds exactly when the payload fits a frame.
pub fn client_frame(kind: Command, payload: &Vec<u8>) -> (r: Result<Vec<u8>, FrameError>)
    requires
        kind != Command::Unknown,
    ensures
        match r {
            Ok(bytes) => payload@.len() <= MAX_FRAME && bytes@ == spec_frame(
                spec_wire(kind),
                payload@,
            ),
            Err(FrameError::FrameTooLarge) => payload@.len() > MAX_FRAME,
            Err(_) => false,
        },
{
    let token = wire_token(kind);
    proof {
        lemma_wire_tokens();
    }
    encode(&token, payload)
}

/// ASCII whitespace, as input trimming understands it.
pub open spec fn is_ws(b: u8) -> bool {
    b == 32 || b == 9 || b == 10 || b == 13
}

/// `s` without its leading whitespace.
pub open spec fn trim_front(s: Seq<u8>) -> Seq<u8>
    decreases s.len(),
{
    if s.len() > 0 && is_ws(s[0]) {
        trim_front(s.drop_first())
    } else {
        s
    }
}

/// `s` without its trailing whitespace.
pub open spec fn trim_back(s: Seq<u8>) -> Seq<u8>
    decreases s.len(),
{
    if s.len() > 0 && is_ws(s.last()) {
        trim_back(s.drop_last())
    } else {
        s
    }
}

/// `s` without leading and trailing whitespace.
pub open spec fn spec_trim(s: Seq<u8>) -> Seq<u8> {
    trim_back(trim_front(s))
}

/// Dropping the leading run of whitespace is what `trim_front` does.
proof fn lemma_trim_front_skip(s: Seq<u8>, a: int)
    requires
        0 <= a <= s.len(),
        forall|j: int| 0 <= j < a ==> is_ws(#[trigger] s[j]),
        a == s.len() || !is_ws(s[a]),
    ensures
        trim_front(s) == s.skip(a),
    decreases a,
{
    if a == 0 {
        assert(s.skip(0) =~= s);
    } else {
        assert(is_ws(s[0]));
        let t = s.drop_first();
        assert(forall|j: int| 0 <= j < t.len() ==> t[j] == s[j + 1]);
        lemma_trim_front_skip(t, a - 1);
        assert(t.skip(a - 1) =~= s.skip(a));
    }
}

/// Dropping the trailing run of whitespace is what `trim_back` does.
proof fn lemma_trim_back_take(s: Seq<u8>, b: int)
    requires
        0 <= b <= s.len(),
        forall|j: int| b <= j < s.len() ==> is_ws(#[trigger] s[j]),
        b == 0 || !is_ws(s[b - 1]),
    ensures
        trim_back(s) == s.take(b),
    decreases s.len(),
{
    if b == s.len() {
        assert(s.take(b) =~= s);
    } else {
        assert(is_ws(s.last()));
        let t = s.drop_last();
        assert(forall|j: int| 0 <= j < t.len() ==> t[j] == s[j]);
        lemma_trim_back_take(t, b);
        assert(t.take(b) =~= s.take(b));
    }
}

/// Copies `s` with its surrounding ASCII whitespace removed.
pub fn trim_bytes(s: &Vec<u8>) -> (r: Vec<u8>)
    ensures
        r@ == spec_trim(s@),
{
    let n = s.len();
    let mut a: usize = 0;
    while a < n && (s[a] == 32 || s[a] == 9 || s[a] == 10 || s[a] == 13)
        invariant
            a <= n == s@.len(),
            forall|j: int| 0 <= j < a ==> is_ws(#[trigger] s@[j]),
        decreases n - a,
    {
        a = a + 1;
    }
    if a == n {
        proof {
            lemma_trim_front_skip(s@, a as int);
            assert(s@.skip(n as int) =~= Seq::<u8>::empty());
        }
        return Vec::new();
    }
    proof {
        lemma_trim_front_skip(s@, a as int);
    }
    let mut b: usize = n;
    while b > a && (s[b - 1] == 32 || s[b - 1] == 9 || s[b - 1] == 10 || s[b - 1] == 13)
        invariant
            a <= b <= n == s@.len(),
            forall|j: int| b <= j < n ==> is_ws(#[trigger] s@[j]),
        decreases b,
    {
        b = b - 1;
    }
    proof {
        let f = s@.skip(a as int);
        assert(forall|j: int| 0 <= j < f.len() ==> f[j] == s@[j + a]);
        assert(b > a);
        assert(!is_ws(f[b - a - 1]));
        lemma_trim_back_take(f, b - a as int);
        assert(f.take(b - a as int) =~= s@.subrange(a as int, b as int));
    }
    subvec(s, a, b)
}

/// The input prefix `.text `.
pub open spec fn text_prefix() -> Seq<u8> {
    seq![46u8, 116u8, 101u8, 120u8, 116u8, 32u8]
}

/// The input prefix `.image `.
pub open spec fn image_prefix() -> Seq<u8> {
    seq![46u8, 105u8, 109u8, 97u8, 103u8, 101u8, 32u8]
}

/// The input prefix `.file `.
pub open spec fn file_prefix() -> Seq<u8> {
    seq![46u8, 102u8, 105u8, 108u8, 101u8, 32u8]
}

/// Whether `s` begins with `p`.
pub open spec fn starts_with(s: Seq<u8>, p: Seq<u8>) -> bool {
    s.len() >= p.len() && s.subrange(0, p.len() as int) == p
}

/// How one trimmed line of local input is read: a leading `.file `,
/// `.image ` or `.text ` selects the command and the rest of the line is the
/// payload; any other line is sent as text unchanged.
pub open spec fn spec_parse_input(line: Seq<u8>) -> (Command, Seq<u8>) {
    let t = spec_trim(line);
    if starts_with(t, file_prefix()) {
        (Command::File, t.skip(file_prefix().len() as int))
    } else if starts_with(t, image_prefix()) {
        (Command::Image, t.skip(image_prefix().len() as int))
    } else if starts_with(t, text_prefix()) {
        (Command::Text, t.skip(text_prefix().len() as int))
    } else {
        (Command::Text, t)
    }
}

/// Whether `s` begins with the bytes of `p`.
fn has_prefix(s: &Vec<u8>, p: &Vec<u8>) -> (r: bool)
    ensures
        r == starts_with(s@, p@),
{
    if s.len() < p.len() {
        return false;
    }
    let mut i: usize = 0;
    while i < p.len()
        invariant
            i <= p.len() <= s.len(),
            forall|j: int| 0 <= j < i ==> s@[j] == p@[j],
        decreases p.len() - i,
    {
        if s[i] != p[i] {
            proof {
                assert(s@.subrange(0, p@.len() as int)[i as int] != p@[i as int]);
            }
            return false;
        }
        i = i + 1;
    }
    proof {
        assert(s@.subrange(0, p@.len() as int) =~= p@);
    }
    true
}

/// Splits one line of local input into the command to send and its payload.
pub fn parse_input(line: &Vec<u8>) -> (r: (Command, Vec<u8>))
    ensures
        r.0 == spec_parse_input(line@).0,
        r.1@ == spec_parse_input(line@).1,
        r.0 != Command::Unknown,
{
    let t = trim_bytes(line);
    let mut fp: Vec<u8> = Vec::new();
    fp.push(46);
    fp.push(102);
    fp.push(105);
    fp.push(108);
    fp.push(101);
    fp.push(32);
    proof {
        assert(fp@ =~= file_prefix());
    }
    if has_prefix(&t, &fp) {
        return (Command::File, subvec(&t, fp.len(), t.len()));
    }
    let mut ip: Vec<u8> = Vec::new();
    ip.push(46);
    ip.push(105);
    ip.push(109);
    ip.push(97);
    ip.push(103);
    ip.push(101);
    ip.push(32);
    proof {
        assert(ip@ =~= image_prefix());
    }
    if has_prefix(&t, &ip) {
        return (Command::Image, subvec(&t, ip.len(), t.len()));
    }
    let mut tp: Vec<u8> = Vec::new();
    tp.push(46);
    tp.push(116);
    tp.push(101);
    tp.push(120);
    tp.push(116);
    tp.push(32);
    proof {
        assert(tp@ =~= text_prefix());
    }
    if has_prefix(&t, &tp) {
        return (Command::Text, subvec(&t, tp.len(), t.len()));
    }
    (Command::Text, t)
}

/// The directory image payloads are staged under.
pub open spec fn images_dir() -> Seq<u8> {
    seq![105u8, 109u8, 97u8, 103u8, 101u8, 115u8]
}

/// The directory file payloads are staged under.
pub open spec fn files_dir() -> Seq<u8> {
    seq![102u8, 105u8, 108u8, 101u8, 115u8]
}

/// Decides what the receiver does with one decoded message: print text
/// lines, stage image payloads under `images` and file payloads under
/// `files`, and report anything unrecognized without stopping.
pub fn dispatch(m: Message) -> (r: ClientAction)
    ensures
        match r {
            ClientAction::PrintLine(p) => spec_kind(m.command@) == Command::Text && p@
                == m.payload@,
            ClientAction::Stage { dir, payload } => payload@ == m.payload@ && ((spec_kind(
                m.command@,
            ) == Command::Image && dir@ == images_dir()) || (spec_kind(m.command@) == Command::File
                && dir@ == files_dir())),
            ClientAction::ReportUnknown => spec_kind(m.command@) == Command::Unknown,
        },
{
    let kind = command_kind(&m.command);
    match kind {
        Command::Text => ClientAction::PrintLine(m.payload),
        Command::Image => {
            let mut dir: Vec<u8> = Vec::new();
            dir.push(105);
            dir.push(109);
            dir.push(97);
            dir.push(103);
            dir.push(101);
            dir.push(115);
            proof {
                assert(dir@ =~= images_dir());
            }
            ClientAction::Stage { dir, payload: m.payload }
        },
        Command::File => {
            let mut dir: Vec<u8> = Vec::new();
            dir.push(102);
            dir.push(105);
            dir.push(108);
            dir.push(101);
            dir.push(115);
            proof {
                assert(dir@ =~= files_dir());
            }
            ClientAction::Stage { dir, payload: m.payload }
        },
        Command::Unknown => ClientAction::ReportUnknown,
    }
}

/// Decides how to make a directory ready: an absent directory is to be
/// created; an existing one is reported, as `NotWritable` when it cannot be
/// written and as `AlreadyExists` otherwise.
pub fn dir_plan(name: String, exists: bool, writable: bool) -> (r: Result<(), ClientError>)
    ensures
        match r {
            Ok(u) => !exists,
            Err(ClientError::NotWritable(n)) => exists && !writable && n@ == name@,
            Err(ClientError::AlreadyExists(n)) => exists && writable && n@ == name@,
            Err(_) => false,
        },
{
    if exists {
        if !writable {
            Err(ClientError::NotWritable(name))
        } else {
            Err(ClientError::AlreadyExists(name))
        }
    } else {
        Ok(())
    }
}

/// What remains of `s` after its second space, if it has two; otherwise `s`
/// itself.
pub open spec fn spec_strip_to_second_space(s: Seq<u8>) -> Seq<u8> {
    match find_byte(s, SPACE) {
        Option::None => s,
        Option::Some(i) => match find_byte(s.skip(i + 1), SPACE) {
            Option::None => s,
            Option::Some(j) => s.skip(i + 1 + j + 1),
        },
    }
}

/// Strips everything up to and including the second space; with fewer than
/// two spaces the bytes come back unchanged.
pub fn strip_to_second_space(s: &Vec<u8>) -> (r: Vec<u8>)
    ensures
        r@ == spec_strip_to_second_space(s@),
{
    let n = s.len();
    let mut i: usize = 0;
    while i < n && s[i] != 32
        invariant
            i <= n == s@.len(),
            forall|j: int| 0 <= j < i ==> s@[j] != SPACE,
        decreases n - i,
    {
        i = i + 1;
    }
    if i == n {
        proof {
            crate::codec::lemma_find_byte_props(s@, SPACE);
            match find_byte(s@, SPACE) {
                Option::Some(k) => {
                    assert(s@[k] == SPACE);
                },
                Option::None => {},
            }
        }
        return subvec(s, 0, n);
    }
    proof {
        lemma_find_byte_witness(s@, SPACE, i as int);
    }
    let ghost tail = s@.skip(i + 1 as int);
    let mut k: usize = i + 1;
    while k < n && s[k] != 32
        invariant
            i + 1 <= k <= n == s@.len(),
            forall|j: int| i + 1 <= j < k ==> s@[j] != SPACE,
        decreases n - k,
    {
        k = k + 1;
    }
    proof {
        assert(forall|j: int| 0 <= j < tail.len() ==> tail[j] == s@[j + i + 1]);
    }
    if k == n {
        proof {
            crate::codec::lemma_find_byte_props(tail, SPACE);
            match find_byte(tail, SPACE) {
                Option::Some(m) => {
                    assert(tail[m] == s@[m + i + 1]);
                },
                Option::None => {},
            }
        }
        return subvec(s, 0, n);
    }
    proof {
        assert(tail[k - i - 1] == s@[k as int]);
        lemma_find_byte_witness(tail, SPACE, k - i - 1);
        assert(s@.skip(i + 1 + (k - i - 1) + 1) =~= s@.subrange(k + 1 as int, n as int));
    }
    subvec(s, k + 1, n)
}

} // verus!
