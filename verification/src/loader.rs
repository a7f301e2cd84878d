//! Loading a binary from the bytes of a file.
//!
//! The bytes are read through the `goblin` crate, piece by piece: what a file
//! starts as, the first entry of a multi-architecture table, the header of a
//! Mach-O slice, each of its load commands, and the strings they point to.
//! What is decided here is which containers are taken, which slice is read,
//! what is gathered from the load commands, and which failure is reported for
//! the rest.

use vstd::prelude::*;
use vstd::string::*;
use crate::text::{hex_digits, lemma_views_push, push_hex, views};
use goblin::container::{Container, Ctx, Endian};
use goblin::mach::load_command::{CommandVariant, LoadCommand};
use scroll::Pread;

verus! {

/// The error type of `goblin`; nothing of its contents is known here.
#[verifier::external_type_specification]
#[verifier::external_body]
pub struct ExParseError(goblin::error::Error);

/// A container format that is recognised and not taken.
#[derive(Clone, Copy, Debug, PartialEq, Eq)]
pub enum Format {
    Archive,
    Elf,
    PE,
    TE,
    COFF,
    Other,
}

/// What the bytes of a file were recognised as.
#[derive(Clone, Copy, Debug, PartialEq, Eq)]
pub enum ObjectKind {
    /// A Mach-O binary of one architecture.
    Thin,
    /// A container of several architecture slices.
    Fat,
    /// A format of another family.
    Foreign(Format),
    /// Nothing known.
    Unknown,
}

/// Why a file could not be loaded.
#[derive(Clone, Copy, Debug, PartialEq, Eq)]
pub enum Cause {
    /// The file could not be read.
    Unreadable,
    /// The bytes do not parse.
    Malformed,
    /// The file is of a format that is not taken.
    UnsupportedFormat(Format),
    /// The file is of no known format; the value is what it starts with.
    UnknownMagic(u64),
    /// The container lists no architecture slice.
    NoArchitecture,
}

/// A failure to load the file at `path`. `detail` says more of an unreadable
/// or malformed file.
#[derive(Clone, Debug, PartialEq, Eq)]
pub struct LoadError {
    pub path: String,
    pub cause: Cause,
    pub detail: String,
}

/// A load failure as a mathematical value.
pub struct LoadErrorView {
    pub path: Seq<char>,
    pub cause: Cause,
    pub detail: Seq<char>,
}

impl View for LoadError {
    type V = LoadErrorView;

    open spec fn view(&self) -> LoadErrorView {
        LoadErrorView { path: self.path@, cause: self.cause, detail: self.detail@ }
    }
}

/// What the traversal reads of a parsed binary: its dependency references in
/// link order, preceded by its own identity or, where it records none, by the
/// placeholder `self`; its run-time search paths; and for each load command
/// the platform of a build-version command or nothing for any other.
#[derive(Clone, Debug, PartialEq, Eq)]
pub struct Binary {
    pub libs: Vec<String>,
    pub rpaths: Vec<String>,
    pub platforms: Vec<Option<u32>>,
}

/// A parsed binary as a mathematical value.
pub struct BinaryView {
    pub libs: Seq<Seq<char>>,
    pub rpaths: Seq<Seq<char>>,
    pub platforms: Seq<Option<u32>>,
}

impl View for Binary {
    type V = BinaryView;

    open spec fn view(&self) -> BinaryView {
        BinaryView {
            libs: views(self.libs@),
            rpaths: views(self.rpaths@),
            platforms: self.platforms@,
        }
    }
}

/// How the words of a Mach-O slice are laid out.
#[derive(Clone, Copy, Debug, PartialEq, Eq)]
pub struct Layout {
    /// Whether the slice is of the 64-bit kind.
    pub wide: bool,
    pub little_endian: bool,
}

/// The load commands of a slice: how many there are, how many bytes they are
/// said to take, and where the first starts.
#[derive(Clone, Copy, Debug, PartialEq, Eq)]
pub struct CommandTable {
    pub count: usize,
    pub size: u32,
    pub start: usize,
}

/// What a load command says, as far as it matters here. A name is given by
/// its distance from the start of the command.
#[derive(Clone, Copy, Debug, PartialEq, Eq)]
pub enum CommandKind {
    /// A library to load.
    Load(u32),
    /// A library to load that stands above this binary.
    LoadUpward(u32),
    /// A library to load and to offer again as part of this binary.
    Reexport(u32),
    /// A library to load if it is there.
    LoadWeak(u32),
    /// A library to load when it is first used.
    LoadLazy(u32),
    /// The binary's own identity.
    Identity(u32),
    /// A run-time search path.
    SearchPath(u32),
    /// The platform that the binary was built for.
    Build(u32),
    /// Anything else.
    Other,
}

/// A load command and where the one after it starts.
#[derive(Clone, Copy, Debug, PartialEq, Eq)]
pub struct Command {
    pub kind: CommandKind,
    pub end: usize,
}

/// What `goblin::peek_bytes` takes the first sixteen of `bytes` for; nothing
/// where it fails.
pub uninterp spec fn recognized(bytes: Seq<u8>) -> Option<ObjectKind>;

/// What `goblin::mach::load_command::LoadCommand::parse` reads at `offset`;
/// nothing where it fails.
pub uninterp spec fn command_at(bytes: Seq<u8>, offset: nat, little_endian: bool) -> Option<
    Command,
>;

/// The text that `goblin` reads at `offset`, up to the next zero byte; nothing
/// where it fails.
pub uninterp spec fn text_at(bytes: Seq<u8>, offset: nat) -> Option<Seq<char>>;

/// The four bytes from `at` on as a number, most significant first.
pub open spec fn be_word(bytes: Seq<u8>, at: int) -> nat {
    (0x100_0000 * bytes[at] + 0x1_0000 * bytes[at + 1] + 0x100 * bytes[at + 2] + bytes[at
        + 3]) as nat
}

/// The four bytes from `at` on as a number, in the given byte order.
pub open spec fn word(bytes: Seq<u8>, at: int, little_endian: bool) -> nat {
    if little_endian {
        (bytes[at] + 0x100 * bytes[at + 1] + 0x1_0000 * bytes[at + 2] + 0x100_0000 * bytes[at
            + 3]) as nat
    } else {
        be_word(bytes, at)
    }
}

/// The layout that the magic number at `offset` stands for: the word there,
/// most significant byte first, is one of the four Mach-O magic numbers, of
/// which two are for 64 bits and two are the others with their bytes
/// reversed, as a little-endian binary has them. Nothing inside where the
/// word is none of the four, and nothing at all where four bytes are not
/// there.
pub open spec fn layout_at(bytes: Seq<u8>, offset: nat) -> Option<Option<Layout>> {
    if offset + 4 > bytes.len() {
        None
    } else {
        let magic = be_word(bytes, offset as int);
        Some(
            if magic == 0xfeed_face {
                Some(Layout { wide: false, little_endian: false })
            } else if magic == 0xcefa_edfe {
                Some(Layout { wide: false, little_endian: true })
            } else if magic == 0xfeed_facf {
                Some(Layout { wide: true, little_endian: false })
            } else if magic == 0xcffa_edfe {
                Some(Layout { wide: true, little_endian: true })
            } else {
                None
            },
        )
    }
}

/// The load commands that the Mach-O header at `offset` announces. The header
/// is seven words, eight in a 64-bit binary; the fifth is the number of load
/// commands and the sixth their size in bytes, and the commands follow the
/// header. Nothing where fewer than thirty-two bytes are there, whichever the
/// kind.
pub open spec fn header_at(bytes: Seq<u8>, offset: nat, layout: Layout) -> Option<CommandTable> {
    if offset + 32 > bytes.len() {
        None
    } else {
        Some(
            CommandTable {
                count: word(bytes, (offset + 16) as int, layout.little_endian) as usize,
                size: word(bytes, (offset + 20) as int, layout.little_endian) as u32,
                start: (offset + if layout.wide {
                    32nat
                } else {
                    28nat
                }) as usize,
            },
        )
    }
}

/// The first eight bytes as a number, least significant first.
pub open spec fn leading_word(bytes: Seq<u8>) -> nat {
    (bytes[0] + 0x100 * bytes[1] + 0x1_0000 * bytes[2] + 0x100_0000 * bytes[3] + 0x1_0000_0000
        * bytes[4] + 0x100_0000_0000 * bytes[5] + 0x1_0000_0000_0000 * bytes[6]
        + 0x100_0000_0000_0000 * bytes[7]) as nat
}

/// The first entry of the table of a multi-architecture container. The table
/// follows eight bytes of header, whose second word is the number of entries;
/// an entry is five words, the third of which is where its slice starts.
/// Nothing where the table is empty, otherwise the start of the first slice,
/// or nothing inside where the header or the entry does not fit in the bytes.
pub open spec fn first_arch(bytes: Seq<u8>) -> Option<Option<u32>> {
    if bytes.len() < 8 {
        Some(None)
    } else if be_word(bytes, 4) == 0 {
        None
    } else if bytes.len() < 28 {
        Some(None)
    } else {
        Some(Some(be_word(bytes, 16) as u32))
    }
}

/// Calls `goblin::peek_bytes` on the first sixteen bytes and keeps which hint
/// came back. Claims only that the outcome is the one named `recognized` for
/// these bytes. The call reads nothing beyond the sixteen bytes.
#[verifier::external_body]
fn recognize(bytes: &[u8]) -> (r: Result<ObjectKind, goblin::error::Error>)
    requires
        bytes@.len() >= 16,
    ensures
        match r {
            Ok(kind) => recognized(bytes@) == Some(kind),
            Err(_) => recognized(bytes@) is None,
        },
{
    let head: &[u8; 16] = bytes[..16].try_into().unwrap();
    Ok(match goblin::peek_bytes(head)? {
        goblin::Hint::Mach(_) => ObjectKind::Thin,
        goblin::Hint::MachFat(_) => ObjectKind::Fat,
        goblin::Hint::Archive => ObjectKind::Foreign(Format::Archive),
        goblin::Hint::Elf(_) => ObjectKind::Foreign(Format::Elf),
        goblin::Hint::PE => ObjectKind::Foreign(Format::PE),
        goblin::Hint::TE => ObjectKind::Foreign(Format::TE),
        goblin::Hint::COFF => ObjectKind::Foreign(Format::COFF),
        goblin::Hint::Unknown(_) => ObjectKind::Unknown,
        _ => ObjectKind::Foreign(Format::Other),
    })
}

/// Calls `goblin::mach::MultiArch::new` and takes the first item of its
/// `iter_arches`, keeping where the slice starts. Claims that the outcome is
/// `first_arch` of these bytes: `new` reads the eight bytes of header, the
/// iterator gives nothing for a count of zero, and otherwise reads the five
/// words that follow the header, big-endian, each read checked against the
/// length.
#[verifier::external_body]
fn read_first_arch(bytes: &[u8]) -> (r: Option<Result<u32, goblin::error::Error>>)
    ensures
        first_arch(bytes@) == match r {
            None => None::<Option<u32>>,
            Some(Ok(offset)) => Some(Some(offset)),
            Some(Err(_)) => Some(None),
        },
{
    match goblin::mach::MultiArch::new(bytes) {
        Ok(fat) => fat.iter_arches().next().map(|entry| entry.map(|arch| arch.offset)),
        Err(e) => Some(Err(e)),
    }
}

/// Calls `goblin::mach::parse_magic_and_ctx` and keeps the layout. Claims that
/// the outcome is `layout_at` of these bytes and offset: the call reads one
/// word, big-endian, with the read checked against the length, and tells the
/// four magic numbers apart.
#[verifier::external_body]
fn read_layout(bytes: &[u8], offset: usize) -> (r: Result<Option<Layout>, goblin::error::Error>)
    ensures
        match r {
            Ok(layout) => layout_at(bytes@, offset as nat) == Some(layout),
            Err(_) => layout_at(bytes@, offset as nat) is None,
        },
{
    let (_, ctx) = goblin::mach::parse_magic_and_ctx(bytes, offset)?;
    Ok(ctx.map(|c| Layout { wide: c.is_big(), little_endian: c.is_little_endian() }))
}

/// Reads a `goblin::mach::header::Header` at `offset` with `scroll`'s
/// `gread_with`, as `goblin` does, and keeps the number and size of the load
/// commands and where the header ends. Claims that the outcome is `header_at`
/// of these bytes, offset and layout: `goblin` refuses fewer than thirty-two
/// bytes, reads the words in the given byte order, and reports twenty-eight
/// or thirty-two bytes as read.
#[verifier::external_body]
fn read_header(bytes: &[u8], offset: usize, layout: Layout) -> (r: Result<
    CommandTable,
    goblin::error::Error,
>)
    ensures
        match r {
            Ok(table) => header_at(bytes@, offset as nat, layout) == Some(table),
            Err(_) => header_at(bytes@, offset as nat, layout) is None,
        },
{
    let container = if layout.wide { Container::Big } else { Container::Little };
    let ctx = Ctx::new(container, Endian::from(layout.little_endian));
    let mut start = offset;
    let header: goblin::mach::header::Header = bytes.gread_with(&mut start, ctx)?;
    Ok(CommandTable { count: header.ncmds, size: header.sizeofcmds, start })
}

/// Calls `goblin::mach::load_command::LoadCommand::parse` and keeps which
/// command came back, one kind for each that is told apart here, with the one
/// number of it that is read here, and where the next command starts. Claims only that the outcome is the one named
/// `command_at` for these bytes, offset and byte order.
#[verifier::external_body]
fn read_command(bytes: &[u8], offset: usize, little_endian: bool) -> (r: Result<
    Command,
    goblin::error::Error,
>)
    ensures
        match r {
            Ok(command) => command_at(bytes@, offset as nat, little_endian) == Some(command),
            Err(_) => command_at(bytes@, offset as nat, little_endian) is None,
        },
{
    let mut end = offset;
    let kind = match LoadCommand::parse(bytes, &mut end, Endian::from(little_endian))?.command {
        CommandVariant::LoadDylib(c) => CommandKind::Load(c.dylib.name),
        CommandVariant::LoadUpwardDylib(c) => CommandKind::LoadUpward(c.dylib.name),
        CommandVariant::ReexportDylib(c) => CommandKind::Reexport(c.dylib.name),
        CommandVariant::LoadWeakDylib(c) => CommandKind::LoadWeak(c.dylib.name),
        CommandVariant::LazyLoadDylib(c) => CommandKind::LoadLazy(c.dylib.name),
        CommandVariant::IdDylib(c) => CommandKind::Identity(c.dylib.name),
        CommandVariant::Rpath(c) => CommandKind::SearchPath(c.path),
        CommandVariant::BuildVersion(c) => CommandKind::Build(c.platform),
        _ => CommandKind::Other,
    };
    Ok(Command { kind, end })
}

/// Reads a string at `offset` with `scroll`'s `pread`, as `goblin` does for
/// the names in load commands: the bytes up to the next zero, taken as UTF-8.
/// Claims only that the outcome is the one named `text_at` for these bytes
/// and offset.
#[verifier::external_body]
fn read_text(bytes: &[u8], offset: usize) -> (r: Result<String, goblin::error::Error>)
    ensures
        match r {
            Ok(text) => text_at(bytes@, offset as nat) == Some(text@),
            Err(_) => text_at(bytes@, offset as nat) is None,
        },
{
    let text: &str = bytes.pread(offset)?;
    Ok(text.to_string())
}

/// The text that `goblin` gives for one of its errors. Nothing is claimed of
/// it.
#[verifier::external_body]
fn error_text(e: &goblin::error::Error) -> String {
    format!("{}", e)
}

/// What is done with a file once it is known what it is.
#[derive(Clone, Copy, Debug, PartialEq, Eq)]
pub enum Plan {
    /// Parse the file from its start.
    ParseWhole,
    /// Parse the first slice that the container lists.
    ParseFirstSlice,
    /// Give up, for this cause.
    Reject(Cause),
}

/// A thin binary is parsed as it is and a multi-architecture container by its
/// first slice; every other kind is rejected, an unknown one with `magic`,
/// the value that the file starts with.
pub open spec fn planned(kind: ObjectKind, magic: u64) -> Plan {
    match kind {
        ObjectKind::Thin => Plan::ParseWhole,
        ObjectKind::Fat => Plan::ParseFirstSlice,
        ObjectKind::Foreign(format) => Plan::Reject(Cause::UnsupportedFormat(format)),
        ObjectKind::Unknown => Plan::Reject(Cause::UnknownMagic(magic)),
    }
}

/// Where the slice to parse starts, given the first entry of a container's
/// table.
pub open spec fn slice_start(first: Option<Option<u32>>) -> Result<nat, Cause> {
    match first {
        None => Err(Cause::NoArchitecture),
        Some(None) => Err(Cause::Malformed),
        Some(Some(offset)) => Ok(offset as nat),
    }
}

/// The text at `position`, which has to lie within the bytes.
pub open spec fn string_at(bytes: Seq<u8>, position: nat) -> Option<Seq<char>> {
    if position > bytes.len() {
        None
    } else {
        text_at(bytes, position)
    }
}

/// What is known of a binary before any of its load commands is read: it has
/// no identity yet, and the placeholder stands for it.
pub open spec fn nothing_gathered() -> BinaryView {
    BinaryView { libs: seq!["self"@], rpaths: Seq::empty(), platforms: Seq::empty() }
}

/// What is known of a binary once the command of kind `kind` that starts at
/// `at` is read as well. A library is added to the references, in whichever
/// way it is asked for, and a search path to the search paths; an identity takes the first place among the
/// references; every command leaves its mark among the platforms. Nothing
/// where a name cannot be read.
pub open spec fn absorbed(bytes: Seq<u8>, at: nat, kind: CommandKind, so_far: BinaryView) -> Option<
    BinaryView,
> {
    match kind {
        CommandKind::Identity(name) => match string_at(bytes, (at + name) as nat) {
            Some(text) => Some(
                BinaryView {
                    libs: so_far.libs.update(0, text),
                    platforms: so_far.platforms.push(None),
                    ..so_far
                },
            ),
            None => None,
        },
        CommandKind::SearchPath(name) => match string_at(bytes, (at + name) as nat) {
            Some(text) => Some(
                BinaryView {
                    rpaths: so_far.rpaths.push(text),
                    platforms: so_far.platforms.push(None),
                    ..so_far
                },
            ),
            None => None,
        },
        CommandKind::Build(platform) => Some(
            BinaryView { platforms: so_far.platforms.push(Some(platform)), ..so_far },
        ),
        CommandKind::Other => Some(BinaryView { platforms: so_far.platforms.push(None), ..so_far }),
        _ => match string_at(bytes, (at + library_of(kind)) as nat) {
            Some(text) => Some(
                BinaryView {
                    libs: so_far.libs.push(text),
                    platforms: so_far.platforms.push(None),
                    ..so_far
                },
            ),
            None => None,
        },
    }
}

/// Where a command that asks for a library, in any of the five ways, gives
/// the name of the library.
pub open spec fn library_of(kind: CommandKind) -> u32 {
    match kind {
        CommandKind::Load(name) => name,
        CommandKind::LoadUpward(name) => name,
        CommandKind::Reexport(name) => name,
        CommandKind::LoadWeak(name) => name,
        CommandKind::LoadLazy(name) => name,
        _ => 0,
    }
}

/// What is known of a binary once the `left` commands from `at` on are read
/// as well, each starting where the one before it ends. Nothing where one of
/// them cannot be read.
pub open spec fn gathered(
    bytes: Seq<u8>,
    little_endian: bool,
    at: nat,
    left: nat,
    so_far: BinaryView,
) -> Option<BinaryView>
    decreases left,
{
    if left == 0 {
        Some(so_far)
    } else {
        match command_at(bytes, at, little_endian) {
            None => None,
            Some(command) => match absorbed(bytes, at, command.kind, so_far) {
                None => None,
                Some(next) => gathered(
                    bytes,
                    little_endian,
                    command.end as nat,
                    (left - 1) as nat,
                    next,
                ),
            },
        }
    }
}

/// Whether the load commands can be where the header says: each takes at
/// least eight bytes, and all of them lie in the file.
pub open spec fn plausible(table: CommandTable, length: nat) -> bool {
    table.count <= table.size / 8 && table.size <= length
}

/// The binary in the slice that starts at `offset`; nothing where its magic
/// number, its header or one of its load commands cannot be read, or where
/// its load commands cannot be where the header says.
pub open spec fn slice_binary(bytes: Seq<u8>, offset: nat) -> Option<BinaryView> {
    match layout_at(bytes, offset) {
        Some(Some(layout)) => match header_at(bytes, offset, layout) {
            Some(table) => if plausible(table, bytes.len()) {
                gathered(
                    bytes,
                    layout.little_endian,
                    table.start as nat,
                    table.count as nat,
                    nothing_gathered(),
                )
            } else {
                None
            },
            None => None,
        },
        _ => None,
    }
}

/// What parsing at `offset` gives.
pub open spec fn parsed_at(bytes: Seq<u8>, offset: nat) -> Result<BinaryView, Cause> {
    match slice_binary(bytes, offset) {
        Some(binary) => Ok(binary),
        None => Err(Cause::Malformed),
    }
}

/// What loading a file of these bytes gives. A file of less than sixteen
/// bytes is too short to be told apart.
pub open spec fn loaded(bytes: Seq<u8>) -> Result<BinaryView, Cause> {
    if bytes.len() < 16 {
        Err(Cause::Malformed)
    } else {
        match recognized(bytes) {
            None => Err(Cause::Malformed),
            Some(kind) => match planned(kind, leading_word(bytes) as u64) {
                Plan::Reject(cause) => Err(cause),
                Plan::ParseWhole => parsed_at(bytes, 0),
                Plan::ParseFirstSlice => match slice_start(first_arch(bytes)) {
                    Err(cause) => Err(cause),
                    Ok(offset) => parsed_at(bytes, offset),
                },
            },
        }
    }
}

/// What is done with a file of the given kind that starts with `magic`.
pub fn plan(kind: ObjectKind, magic: u64) -> (p: Plan)
    ensures
        p == planned(kind, magic),
{
    match kind {
        ObjectKind::Thin => Plan::ParseWhole,
        ObjectKind::Fat => Plan::ParseFirstSlice,
        ObjectKind::Foreign(format) => Plan::Reject(Cause::UnsupportedFormat(format)),
        ObjectKind::Unknown => Plan::Reject(Cause::UnknownMagic(magic)),
    }
}

/// Where the slice to parse starts, given the first entry of the container's
/// table: nothing for an empty table, and inside it nothing for an entry that
/// could not be read.
pub fn first_slice_start(first: Option<Option<u32>>) -> (r: Result<usize, Cause>)
    ensures
        match r {
            Ok(offset) => slice_start(first) == Ok::<nat, Cause>(offset as nat),
            Err(cause) => slice_start(first) == Err::<nat, Cause>(cause),
        },
{
    match first {
        None => Err(Cause::NoArchitecture),
        Some(None) => Err(Cause::Malformed),
        Some(Some(offset)) => Ok(offset as usize),
    }
}

/// The first eight bytes of `buffer` as a number, least significant first.
pub fn leading(buffer: &[u8]) -> (magic: u64)
    requires
        buffer@.len() >= 8,
    ensures
        magic == leading_word(buffer@),
{
    let b0: u64 = buffer[0] as u64;
    let b1: u64 = buffer[1] as u64;
    let b2: u64 = buffer[2] as u64;
    let b3: u64 = buffer[3] as u64;
    let b4: u64 = buffer[4] as u64;
    let b5: u64 = buffer[5] as u64;
    let b6: u64 = buffer[6] as u64;
    let b7: u64 = buffer[7] as u64;
    b0 + 0x100 * b1 + 0x1_0000 * b2 + 0x100_0000 * b3 + 0x1_0000_0000 * b4 + 0x100_0000_0000 * b5
        + 0x1_0000_0000_0000 * b6 + 0x100_0000_0000_0000 * b7
}

/// A failure for the file at `path` with no further text.
fn failure(path: &str, cause: Cause) -> (e: LoadError)
    ensures
        e@ == (LoadErrorView { path: path@, cause, detail: Seq::empty() }),
{
    LoadError { path: path.to_owned(), cause, detail: String::new() }
}

/// A failure for the file at `path` that carries the text of a parse error.
fn malformed(path: &str, e: &goblin::error::Error) -> (r: LoadError)
    ensures
        r.path@ == path@,
        r.cause == Cause::Malformed,
{
    LoadError { path: path.to_owned(), cause: Cause::Malformed, detail: error_text(e) }
}

/// A failure for the file at `path` whose bytes are out of order in the way
/// that `detail` says.
fn broken(path: &str, detail: &str) -> (r: LoadError)
    ensures
        r@ == (LoadErrorView { path: path@, cause: Cause::Malformed, detail: detail@ }),
{
    LoadError { path: path.to_owned(), cause: Cause::Malformed, detail: detail.to_owned() }
}

/// The name that a command starting at `at` gives by the distance `name`.
fn read_name(path: &str, buffer: &[u8], at: usize, name: u32) -> (r: Result<String, LoadError>)
    ensures
        match r {
            Ok(text) => string_at(buffer@, (at + name) as nat) == Some(text@),
            Err(e) => string_at(buffer@, (at + name) as nat) is None && e.path@ == path@
                && e.cause == Cause::Malformed,
        },
{
    let distance: usize = name as usize;
    if distance > buffer.len() || at > buffer.len() - distance {
        return Err(broken(path, "a name lies outside the file"));
    }
    match read_text(buffer, at + distance) {
        Ok(text) => Ok(text),
        Err(e) => Err(malformed(path, &e)),
    }
}

/// Parses the slice of `buffer` that starts at `offset`.
fn load_slice(path: &str, buffer: &[u8], offset: usize) -> (r: Result<Binary, LoadError>)
    ensures
        match r {
            Ok(binary) => parsed_at(buffer@, offset as nat) == Ok::<BinaryView, Cause>(binary@),
            Err(e) => parsed_at(buffer@, offset as nat) == Err::<BinaryView, Cause>(e.cause)
                && e.path@ == path@,
        },
{
    let layout = match read_layout(buffer, offset) {
        Ok(Some(layout)) => layout,
        Ok(None) => {
            return Err(broken(path, "not a Mach-O binary"));
        },
        Err(e) => {
            return Err(malformed(path, &e));
        },
    };
    let table = match read_header(buffer, offset, layout) {
        Ok(table) => table,
        Err(e) => {
            return Err(malformed(path, &e));
        },
    };
    if table.count > (table.size / 8) as usize || table.size as usize > buffer.len() {
        return Err(broken(path, "the load commands do not fit in the file"));
    }
    let mut libs: Vec<String> = Vec::new();
    let mut rpaths: Vec<String> = Vec::new();
    let mut platforms: Vec<Option<u32>> = Vec::new();
    libs.push("self".to_owned());
    let ghost little = layout.little_endian;
    let ghost whole = gathered(
        buffer@,
        little,
        table.start as nat,
        table.count as nat,
        nothing_gathered(),
    );
    assert(views(libs@) =~= seq!["self"@]);
    assert(views(rpaths@) =~= Seq::<Seq<char>>::empty());
    let mut at: usize = table.start;
    let mut done: usize = 0;
    while done < table.count
        invariant
            done <= table.count,
            libs@.len() >= 1,
            little == layout.little_endian,
            slice_binary(buffer@, offset as nat) == whole,
            whole == gathered(
                buffer@,
                little,
                at as nat,
                (table.count - done) as nat,
                BinaryView { libs: views(libs@), rpaths: views(rpaths@), platforms: platforms@ },
            ),
        decreases table.count - done,
    {
        let ghost so_far = BinaryView {
            libs: views(libs@),
            rpaths: views(rpaths@),
            platforms: platforms@,
        };
        let command = match read_command(buffer, at, layout.little_endian) {
            Ok(command) => command,
            Err(e) => {
                return Err(malformed(path, &e));
            },
        };
        match command.kind {
            CommandKind::Load(name) | CommandKind::LoadUpward(name) | CommandKind::Reexport(name)
            | CommandKind::LoadWeak(name) | CommandKind::LoadLazy(name) => {
                let text = match read_name(path, buffer, at, name) {
                    Ok(text) => text,
                    Err(e) => {
                        return Err(e);
                    },
                };
                proof {
                    lemma_views_push(libs@, text);
                }
                libs.push(text);
                platforms.push(None);
            },
            CommandKind::Identity(name) => {
                let text = match read_name(path, buffer, at, name) {
                    Ok(text) => text,
                    Err(e) => {
                        return Err(e);
                    },
                };
                let ghost before = libs@;
                libs.set(0, text);
                assert(views(libs@) =~= views(before).update(0, text@));
                platforms.push(None);
            },
            CommandKind::SearchPath(name) => {
                let text = match read_name(path, buffer, at, name) {
                    Ok(text) => text,
                    Err(e) => {
                        return Err(e);
                    },
                };
                proof {
                    lemma_views_push(rpaths@, text);
                }
                rpaths.push(text);
                platforms.push(None);
            },
            CommandKind::Build(platform) => {
                platforms.push(Some(platform));
            },
            CommandKind::Other => {
                platforms.push(None);
            },
        }
        assert(absorbed(buffer@, at as nat, command.kind, so_far) == Some(
            BinaryView { libs: views(libs@), rpaths: views(rpaths@), platforms: platforms@ },
        ));
        at = command.end;
        done = done + 1;
    }
    Ok(Binary { libs, rpaths, platforms })
}

/// Loads the binary held in `buffer`, the contents of the file at `path`.
///
/// A thin Mach-O binary is parsed from its start, a multi-architecture
/// container by its first slice. Any other format is rejected and named in
/// the error, without a look at the rest of the file; a file of no known
/// format is rejected with the value it starts with; a container without
/// slices is rejected; bytes that do not parse are reported as malformed,
/// with more in `detail`.
pub fn load_binary(path: &str, buffer: &[u8]) -> (r: Result<Binary, LoadError>)
    ensures
        match r {
            Ok(binary) => loaded(buffer@) == Ok::<BinaryView, Cause>(binary@),
            Err(e) => {
                &&& loaded(buffer@) == Err::<BinaryView, Cause>(e.cause)
                &&& e.path@ == path@
                &&& e.cause != Cause::Malformed ==> e.detail@ == Seq::<char>::empty()
            },
        },
{
    if buffer.len() < 16 {
        return Err(broken(path, "the file is too small"));
    }
    let kind = match recognize(buffer) {
        Ok(kind) => kind,
        Err(e) => {
            return Err(malformed(path, &e));
        },
    };
    match plan(kind, leading(buffer)) {
        Plan::Reject(cause) => Err(failure(path, cause)),
        Plan::ParseWhole => load_slice(path, buffer, 0),
        Plan::ParseFirstSlice => {
            let first = match read_first_arch(buffer) {
                None => None,
                Some(Ok(offset)) => Some(Some(offset)),
                Some(Err(e)) => {
                    return Err(malformed(path, &e));
                },
            };
            match first_slice_start(first) {
                Ok(offset) => load_slice(path, buffer, offset),
                Err(cause) => Err(failure(path, cause)),
            }
        },
    }
}

/// The failure for a file at `path` that could not be read, with the text of
/// the reason.
pub fn unreadable(path: &str, detail: &str) -> (e: LoadError)
    ensures
        e@ == (LoadErrorView { path: path@, cause: Cause::Unreadable, detail: detail@ }),
{
    LoadError { path: path.to_owned(), cause: Cause::Unreadable, detail: detail.to_owned() }
}

/// What is said of a cause after the path.
pub open spec fn cause_text(cause: Cause, detail: Seq<char>) -> Seq<char> {
    match cause {
        Cause::Unreadable => detail,
        Cause::Malformed => detail,
        Cause::UnsupportedFormat(Format::Archive) => "archives are not currently supported"@,
        Cause::UnsupportedFormat(Format::Elf) =>
            "ELF binaries are not currently supported, use lddtree instead"@,
        Cause::UnsupportedFormat(Format::PE) => "PE binaries are not currently supported"@,
        Cause::UnsupportedFormat(Format::TE) => "TE binaries are not currently supported"@,
        Cause::UnsupportedFormat(Format::COFF) => "COFF binaries are not currently supported"@,
        Cause::UnsupportedFormat(Format::Other) => "this file format is not currently supported"@,
        Cause::UnknownMagic(magic) => "unknown file magic: 0x"@ + hex_digits(magic as nat)
            + ", please file an issue if this is a Mach-O file"@,
        Cause::NoArchitecture =>
            "no architectures found in fat binary, please file an issue if this is a valid Mach-O file"@,
    }
}

/// The message for a load failure: the path, then the cause.
pub open spec fn message_text(e: LoadErrorView) -> Seq<char> {
    e.path + ": error: "@ + cause_text(e.cause, e.detail)
}

impl LoadError {
    /// The message to show for this failure.
    pub fn message(&self) -> (r: String)
        ensures
            r@ == message_text(self@),
    {
        let mut out = self.path.clone();
        out.append(": error: ");
        match self.cause {
            Cause::Unreadable => out.append(self.detail.as_str()),
            Cause::Malformed => out.append(self.detail.as_str()),
            Cause::UnsupportedFormat(Format::Archive) => out.append(
                "archives are not currently supported",
            ),
            Cause::UnsupportedFormat(Format::Elf) => out.append(
                "ELF binaries are not currently supported, use lddtree instead",
            ),
            Cause::UnsupportedFormat(Format::PE) => out.append(
                "PE binaries are not currently supported",
            ),
            Cause::UnsupportedFormat(Format::TE) => out.append(
                "TE binaries are not currently supported",
            ),
            Cause::UnsupportedFormat(Format::COFF) => out.append(
                "COFF binaries are not currently supported",
            ),
            Cause::UnsupportedFormat(Format::Other) => out.append(
                "this file format is not currently supported",
            ),
            Cause::UnknownMagic(magic) => {
                out.append("unknown file magic: 0x");
                push_hex(&mut out, magic);
                out.append(", please file an issue if this is a Mach-O file");
                assert(out@ =~= message_text(self@));
            },
            Cause::NoArchitecture => out.append(
                "no architectures found in fat binary, please file an issue if this is a valid Mach-O file",
            ),
        }
        out
    }
}

/// The platform number of macOS in a build-version command.
pub const PLATFORM_MACOS: u32 = 1;

/// The first platform that `platforms` holds.
pub open spec fn first_platform(platforms: Seq<Option<u32>>) -> Option<u32>
    decreases platforms.len(),
{
    if platforms.len() == 0 {
        None
    } else if platforms[0] is Some {
        platforms[0]
    } else {
        first_platform(platforms.skip(1))
    }
}

/// Whether system libraries taken from this machine's own image may not fit a
/// binary: they are asked for, no image was named, and the binary's first
/// build-version command is for another platform than macOS.
pub open spec fn platform_mismatch(
    binary: BinaryView,
    include_system: bool,
    image_named: bool,
) -> bool {
    include_system && !image_named && match first_platform(binary.platforms) {
        Some(platform) => platform != PLATFORM_MACOS,
        None => false,
    }
}

impl Binary {
    /// The platform of the first build-version command, if there is one.
    pub fn build_platform(&self) -> (r: Option<u32>)
        ensures
            r == first_platform(self@.platforms),
    {
        let mut i: usize = 0;
        assert(self.platforms@.skip(0) =~= self.platforms@);
        while i < self.platforms.len()
            invariant
                i <= self.platforms.len(),
                first_platform(self.platforms@) == first_platform(self.platforms@.skip(i as int)),
            decreases self.platforms.len() - i,
        {
            let p = self.platforms[i];
            if p.is_some() {
                return p;
            }
            assert(self.platforms@.skip(i as int).skip(1) =~= self.platforms@.skip(i + 1));
            i += 1;
        }
        None
    }

    /// Whether to warn that system libraries may not fit this binary.
    pub fn platform_warning(&self, include_system: bool, image_named: bool) -> (r: bool)
        ensures
            r == platform_mismatch(self@, include_system, image_named),
    {
        if !include_system || image_named {
            return false;
        }
        match self.build_platform() {
            Some(platform) => platform != PLATFORM_MACOS,
            None => false,
        }
    }
}

} // verus!
