use dylibtree::loader::{
    first_slice_start, leading, load_binary, plan, unreadable, Binary, Cause, Format, LoadError,
    ObjectKind, Plan,
};
use dylibtree::text::push_hex;

fn le(v: u32) -> [u8; 4] {
    v.to_le_bytes()
}

fn padded(name: &str, header: usize) -> Vec<u8> {
    let mut bytes = name.as_bytes().to_vec();
    bytes.push(0);
    while (header + bytes.len()) % 8 != 0 {
        bytes.push(0);
    }
    bytes
}

fn dylib_command(cmd: u32, name: &str) -> Vec<u8> {
    let text = padded(name, 24);
    let mut out = Vec::new();
    out.extend(le(cmd));
    out.extend(le(24 + text.len() as u32));
    out.extend(le(24));
    out.extend(le(0));
    out.extend(le(0));
    out.extend(le(0));
    out.extend(text);
    out
}

fn rpath_command(path: &str) -> Vec<u8> {
    let text = padded(path, 12);
    let mut out = Vec::new();
    out.extend(le(0x8000_001c));
    out.extend(le(12 + text.len() as u32));
    out.extend(le(12));
    out.extend(text);
    out
}

fn build_version_command(platform: u32) -> Vec<u8> {
    let mut out = Vec::new();
    out.extend(le(0x32));
    out.extend(le(24));
    out.extend(le(platform));
    out.extend(le(0x000b_0000));
    out.extend(le(0x000b_0000));
    out.extend(le(0));
    out
}

fn macho(commands: &[Vec<u8>]) -> Vec<u8> {
    let size: usize = commands.iter().map(|c| c.len()).sum();
    let mut out = Vec::new();
    out.extend(le(0xfeed_facf));
    out.extend(le(0x0100_000c));
    out.extend(le(0));
    out.extend(le(6));
    out.extend(le(commands.len() as u32));
    out.extend(le(size as u32));
    out.extend(le(0));
    out.extend(le(0));
    for c in commands {
        out.extend(c.iter());
    }
    out
}

fn fat(slices: &[Vec<u8>]) -> Vec<u8> {
    let mut out = Vec::new();
    out.extend(0xcafe_babe_u32.to_be_bytes());
    out.extend((slices.len() as u32).to_be_bytes());
    let mut offset = 64 + 20 * slices.len();
    let mut body = Vec::new();
    for s in slices {
        out.extend(0x0100_000c_u32.to_be_bytes());
        out.extend(0_u32.to_be_bytes());
        out.extend((offset as u32).to_be_bytes());
        out.extend((s.len() as u32).to_be_bytes());
        out.extend(0_u32.to_be_bytes());
        body.push((offset, s.clone()));
        offset += s.len();
    }
    for (at, s) in body {
        while out.len() < at {
            out.push(0);
        }
        out.extend(s);
    }
    while out.len() < 16 {
        out.push(0);
    }
    out
}

fn sample() -> Vec<u8> {
    macho(&[
        dylib_command(0xd, "/opt/lib/libMe.dylib"),
        build_version_command(2),
        dylib_command(0xc, "/usr/lib/libSystem.B.dylib"),
        rpath_command("@executable_path/../lib"),
        dylib_command(0xc, "@rpath/libFoo.dylib"),
        build_version_command(1),
    ])
}

#[test]
fn thin_binary_is_parsed() {
    let binary = load_binary("/bin/x", &sample()).unwrap();
    assert_eq!(
        binary.libs,
        vec!["/opt/lib/libMe.dylib", "/usr/lib/libSystem.B.dylib", "@rpath/libFoo.dylib"]
    );
    assert_eq!(binary.rpaths, vec!["@executable_path/../lib"]);
    assert_eq!(binary.platforms, vec![None, Some(2), None, None, None, Some(1)]);
    assert_eq!(binary.build_platform(), Some(2));
}

#[test]
fn binary_without_identity_lists_the_placeholder() {
    let binary = load_binary("/bin/x", &macho(&[dylib_command(0xc, "/a/libA.dylib")])).unwrap();
    assert_eq!(binary.libs, vec!["self", "/a/libA.dylib"]);
    assert!(binary.rpaths.is_empty());
    assert_eq!(binary.build_platform(), None);
}

#[test]
fn fat_container_is_parsed_by_its_first_slice() {
    let first = macho(&[dylib_command(0xc, "/a/first.dylib")]);
    let second = macho(&[dylib_command(0xc, "/a/second.dylib")]);
    let binary = load_binary("/bin/x", &fat(&[first, second])).unwrap();
    assert_eq!(binary.libs, vec!["self", "/a/first.dylib"]);
}

#[test]
fn fat_container_without_slices_is_rejected() {
    let e = load_binary("/bin/x", &fat(&[])).unwrap_err();
    assert_eq!(e.cause, Cause::NoArchitecture);
    assert_eq!(e.path, "/bin/x");
    assert_eq!(e.detail, "");
    assert_eq!(
        e.message(),
        "/bin/x: error: no architectures found in fat binary, please file an issue if this is a valid Mach-O file"
    );
}

#[test]
fn fat_container_with_unreadable_slice_is_malformed() {
    let mut bytes = fat(&[macho(&[])]);
    bytes.truncate(20);
    let e = load_binary("/bin/x", &bytes).unwrap_err();
    assert_eq!(e.cause, Cause::Malformed);
}

#[test]
fn unknown_magic_is_rejected_with_its_value() {
    let mut bytes = vec![0u8; 32];
    bytes[0] = 0x2a;
    bytes[1] = 0x01;
    let e = load_binary("/tmp/f", &bytes).unwrap_err();
    assert_eq!(e.cause, Cause::UnknownMagic(0x12a));
    assert_eq!(
        e.message(),
        "/tmp/f: error: unknown file magic: 0x12a, please file an issue if this is a Mach-O file"
    );
}

#[test]
fn short_or_broken_bytes_are_malformed() {
    let e = load_binary("/tmp/f", &[1, 2, 3]).unwrap_err();
    assert_eq!(e.cause, Cause::Malformed);
    assert_eq!(e.path, "/tmp/f");
    assert_eq!(e.detail, "the file is too small");
    assert_eq!(e.message(), format!("/tmp/f: error: {}", e.detail));
    let mut cut = sample();
    cut.truncate(40);
    assert_eq!(load_binary("/tmp/f", &cut).unwrap_err().cause, Cause::Malformed);
}

#[test]
fn elf_is_rejected_by_name() {
    let mut bytes = vec![0u8; 64];
    bytes[..4].copy_from_slice(b"\x7fELF");
    bytes[4] = 2;
    bytes[5] = 1;
    bytes[6] = 1;
    bytes[16] = 3;
    bytes[18] = 62;
    bytes[20] = 1;
    bytes[52] = 64;
    bytes[54] = 56;
    bytes[58] = 64;
    let e = load_binary("/bin/ls", &bytes).unwrap_err();
    assert_eq!(e.cause, Cause::UnsupportedFormat(Format::Elf));
    assert_eq!(
        e.message(),
        "/bin/ls: error: ELF binaries are not currently supported, use lddtree instead"
    );
}

#[test]
fn archive_is_rejected_by_name() {
    let bytes = b"!<arch>\nfoo.o/          0           0     0     644     0         `\n";
    let e = load_binary("/lib/x.a", bytes).unwrap_err();
    assert_eq!(e.cause, Cause::UnsupportedFormat(Format::Archive));
    assert_eq!(e.detail, "");
    assert_eq!(e.message(), "/lib/x.a: error: archives are not currently supported");
}

#[test]
fn container_of_another_family_is_rejected_unparsed() {
    let mut bytes = vec![0u8; 64];
    bytes[0] = b'M';
    bytes[1] = b'Z';
    let e = load_binary("/x.exe", &bytes).unwrap_err();
    assert_eq!(e.cause, Cause::UnsupportedFormat(Format::PE));
    assert_eq!(e.detail, "");
    assert_eq!(e.message(), "/x.exe: error: PE binaries are not currently supported");
}

fn segment_command(name: &str, vmaddr: u64, fileoff: u64, filesize: u64) -> Vec<u8> {
    let mut out = Vec::new();
    out.extend(le(0x19));
    out.extend(le(72));
    let mut segname = [0u8; 16];
    segname[..name.len()].copy_from_slice(name.as_bytes());
    out.extend(segname);
    out.extend(vmaddr.to_le_bytes());
    out.extend(0u64.to_le_bytes());
    out.extend(fileoff.to_le_bytes());
    out.extend(filesize.to_le_bytes());
    out.extend(le(7));
    out.extend(le(5));
    out.extend(le(0));
    out.extend(le(0));
    out
}

fn main_command(entry: u64) -> Vec<u8> {
    let mut out = Vec::new();
    out.extend(le(0x8000_0028));
    out.extend(le(24));
    out.extend(entry.to_le_bytes());
    out.extend(0u64.to_le_bytes());
    out
}

#[test]
fn text_segment_that_starts_after_its_address_loads() {
    let bytes = macho(&[
        segment_command("__TEXT", 0, 1, 0),
        main_command(u64::MAX),
        dylib_command(0xc, "/a/libA.dylib"),
    ]);
    let binary = load_binary("/bin/x", &bytes).unwrap();
    assert_eq!(binary.libs, vec!["self", "/a/libA.dylib"]);
    assert_eq!(binary.platforms, vec![None, None, None]);
}

#[test]
fn every_way_of_loading_a_library_counts() {
    let bytes = macho(&[
        dylib_command(0xc, "/a/plain"),
        dylib_command(0x8000_0018, "/a/weak"),
        dylib_command(0x8000_001f, "/a/reexport"),
        dylib_command(0x20, "/a/lazy"),
        dylib_command(0x8000_0023, "/a/upward"),
        dylib_command(0xd, "/a/first"),
        dylib_command(0xd, "/a/me"),
    ]);
    let binary = load_binary("/bin/x", &bytes).unwrap();
    assert_eq!(
        binary.libs,
        vec!["/a/me", "/a/plain", "/a/weak", "/a/reexport", "/a/lazy", "/a/upward"]
    );
}

#[test]
fn big_endian_narrow_binary_is_parsed() {
    let be = |v: u32| v.to_be_bytes();
    let name = b"/a/libOld.dylib\0";
    let mut command = Vec::new();
    command.extend(be(0xc));
    command.extend(be(24 + name.len() as u32));
    command.extend(be(24));
    command.extend(be(0));
    command.extend(be(0));
    command.extend(be(0));
    command.extend(name.iter());
    let mut build = Vec::new();
    build.extend(be(0x32));
    build.extend(be(24));
    build.extend(be(6));
    build.extend(be(0));
    build.extend(be(0));
    build.extend(be(0));
    let mut bytes = Vec::new();
    bytes.extend(be(0xfeed_face));
    bytes.extend(be(18));
    bytes.extend(be(0));
    bytes.extend(be(2));
    bytes.extend(be(2));
    bytes.extend(be((command.len() + build.len()) as u32));
    bytes.extend(be(0));
    bytes.extend(command);
    bytes.extend(build);
    let binary = load_binary("/bin/old", &bytes).unwrap();
    assert_eq!(binary.libs, vec!["self", "/a/libOld.dylib"]);
    assert_eq!(binary.platforms, vec![None, Some(6)]);
}

#[test]
fn name_outside_the_file_is_malformed() {
    let mut command = dylib_command(0xc, "/a/libA.dylib");
    command[8..12].copy_from_slice(&le(0x00ff_ffff));
    let e = load_binary("/bin/x", &macho(&[command])).unwrap_err();
    assert_eq!(e.cause, Cause::Malformed);
    assert_eq!(e.detail, "a name lies outside the file");
    let mut command = dylib_command(0xc, "/a/lib\u{e9}.dylib");
    let at = command.iter().position(|b| *b == 0xc3).unwrap();
    command[at] = 0xff;
    let e = load_binary("/bin/x", &macho(&[command])).unwrap_err();
    assert_eq!(e.cause, Cause::Malformed);
}

#[test]
fn more_commands_than_fit_are_malformed() {
    let mut bytes = macho(&[dylib_command(0xc, "/a/libA.dylib")]);
    bytes[16..20].copy_from_slice(&le(1000));
    let e = load_binary("/bin/x", &bytes).unwrap_err();
    assert_eq!(e.cause, Cause::Malformed);
    assert_eq!(e.detail, "the load commands do not fit in the file");
    let mut bytes = macho(&[dylib_command(0xc, "/a/libA.dylib")]);
    bytes[16..20].copy_from_slice(&le(2));
    assert_eq!(load_binary("/bin/x", &bytes).unwrap_err().cause, Cause::Malformed);
}

#[test]
fn slice_without_a_known_magic_is_malformed() {
    let first = vec![0x11u8; 64];
    let e = load_binary("/bin/x", &fat(&[first])).unwrap_err();
    assert_eq!(e.cause, Cause::Malformed);
    assert_eq!(e.detail, "not a Mach-O binary");
}

#[test]
fn leading_word_is_least_significant_first() {
    assert_eq!(leading(&[1, 2, 3, 4, 5, 6, 7, 8, 9]), 0x0807_0605_0403_0201);
    assert_eq!(leading(&[0xff; 8]), u64::MAX);
    for n in [0u64, 1, 0x12a, 0xfeed_facf, u64::MAX - 1] {
        assert_eq!(leading(&n.to_le_bytes()), n);
    }
}

#[test]
fn plan_for_each_kind() {
    assert_eq!(plan(ObjectKind::Thin, 7), Plan::ParseWhole);
    assert_eq!(plan(ObjectKind::Fat, 7), Plan::ParseFirstSlice);
    for f in [Format::Archive, Format::Elf, Format::PE, Format::TE, Format::COFF, Format::Other] {
        assert_eq!(plan(ObjectKind::Foreign(f), 7), Plan::Reject(Cause::UnsupportedFormat(f)));
    }
    assert_eq!(plan(ObjectKind::Unknown, 7), Plan::Reject(Cause::UnknownMagic(7)));
}

#[test]
fn first_slice_start_for_each_entry() {
    assert_eq!(first_slice_start(None), Err(Cause::NoArchitecture));
    assert_eq!(first_slice_start(Some(None)), Err(Cause::Malformed));
    assert_eq!(first_slice_start(Some(Some(4096))), Ok(4096));
    assert_eq!(first_slice_start(Some(Some(0))), Ok(0));
}

fn failure(cause: Cause) -> LoadError {
    LoadError { path: "p".to_string(), cause, detail: "why".to_string() }
}

#[test]
fn messages_name_the_format() {
    assert_eq!(
        failure(Cause::UnsupportedFormat(Format::Archive)).message(),
        "p: error: archives are not currently supported"
    );
    assert_eq!(
        failure(Cause::UnsupportedFormat(Format::Elf)).message(),
        "p: error: ELF binaries are not currently supported, use lddtree instead"
    );
    assert_eq!(
        failure(Cause::UnsupportedFormat(Format::PE)).message(),
        "p: error: PE binaries are not currently supported"
    );
    assert_eq!(
        failure(Cause::UnsupportedFormat(Format::TE)).message(),
        "p: error: TE binaries are not currently supported"
    );
    assert_eq!(
        failure(Cause::UnsupportedFormat(Format::COFF)).message(),
        "p: error: COFF binaries are not currently supported"
    );
    assert_eq!(
        failure(Cause::UnsupportedFormat(Format::Other)).message(),
        "p: error: this file format is not currently supported"
    );
    assert_eq!(failure(Cause::Malformed).message(), "p: error: why");
    assert_eq!(failure(Cause::Unreadable).message(), "p: error: why");
    assert_eq!(
        failure(Cause::UnknownMagic(0)).message(),
        "p: error: unknown file magic: 0x0, please file an issue if this is a Mach-O file"
    );
    assert_eq!(
        failure(Cause::UnknownMagic(u64::MAX)).message(),
        "p: error: unknown file magic: 0xffffffffffffffff, please file an issue if this is a Mach-O file"
    );
}

#[test]
fn unreadable_carries_path_and_reason() {
    let e = unreadable("/no/such", "No such file or directory (os error 2)");
    assert_eq!(e.path, "/no/such");
    assert_eq!(e.cause, Cause::Unreadable);
    assert_eq!(e.message(), "/no/such: error: No such file or directory (os error 2)");
}

#[test]
fn hex_digits_match_the_standard_format() {
    for n in [0u64, 1, 9, 10, 15, 16, 255, 256, 0xcafebabe, 0xfeedfacf, u64::MAX] {
        let mut out = String::from("0x");
        push_hex(&mut out, n);
        assert_eq!(out, format!("{:#x}", n));
    }
}

#[test]
fn platform_warning_only_for_foreign_platform_without_named_image() {
    let binary = |platforms: Vec<Option<u32>>| Binary {
        libs: Vec::new(),
        rpaths: Vec::new(),
        platforms,
    };
    let ios = binary(vec![None, Some(2), Some(1)]);
    assert!(ios.platform_warning(true, false));
    assert!(!ios.platform_warning(true, true));
    assert!(!ios.platform_warning(false, false));
    let mac = binary(vec![None, Some(1), Some(2)]);
    assert_eq!(mac.build_platform(), Some(1));
    assert!(!mac.platform_warning(true, false));
    assert!(!binary(vec![None, None]).platform_warning(true, false));
    assert!(!binary(Vec::new()).platform_warning(true, false));
}
