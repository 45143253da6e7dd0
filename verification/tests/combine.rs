use mp4_combine::atom::{Atom, BytesAtomInput};
use mp4_combine::combine::{
    combine_mp4, copy, find_atom, fix_offset, require_atom, Init, Part,
};
use mp4_combine::fixup::{fix_traf, fix_trafs, plan_fixup, Fixup};
use mp4_combine::{
    ErrorKind, Mp4CombineError, MAGIC_FTYP, MAGIC_MDAT, MAGIC_MFHD, MAGIC_MOOF, MAGIC_MOOV,
    MAGIC_TFHD, MAGIC_TRAF, MAGIC_TRUN,
};

fn make_box(tag: &[u8; 4], content: &[u8]) -> Vec<u8> {
    let mut bytes = Vec::new();
    bytes.extend_from_slice(&((content.len() + 8) as u32).to_be_bytes());
    bytes.extend_from_slice(tag);
    bytes.extend_from_slice(content);
    bytes
}

fn join(parts: &[Vec<u8>]) -> Vec<u8> {
    let mut bytes = Vec::new();
    for part in parts {
        bytes.extend_from_slice(part);
    }
    bytes
}

fn mfhd(sequence: u32) -> Vec<u8> {
    let mut content = vec![0, 0, 0, 0];
    content.extend_from_slice(&sequence.to_be_bytes());
    make_box(b"mfhd", &content)
}

/// A `tfhd` box with the given first and last flag bytes and what follows
/// the flags.
fn tfhd(first_flag: u8, last_flag: u8, rest: &[u8]) -> Vec<u8> {
    let mut content = vec![0, first_flag, 0, last_flag];
    content.extend_from_slice(rest);
    make_box(b"tfhd", &content)
}

/// A `trun` box with the given last flag byte, a sample count of 1 and what
/// follows the sample count.
fn trun(last_flag: u8, rest: &[u8]) -> Vec<u8> {
    let mut content = vec![0, 0, 0, last_flag, 0, 0, 0, 1];
    content.extend_from_slice(rest);
    make_box(b"trun", &content)
}

fn missing<T>(magic: u32) -> Result<T, Mp4CombineError<ErrorKind>> {
    Err(Mp4CombineError(ErrorKind::MissingAtom { magic }))
}

fn eof<T>() -> Result<T, Mp4CombineError<ErrorKind>> {
    Err(Mp4CombineError(ErrorKind::UnexpectedEof))
}

fn kind_of<T>(r: Result<T, Mp4CombineError<ErrorKind>>) -> Option<ErrorKind> {
    match r {
        Ok(_) => None,
        Err(e) => Some(e.0),
    }
}

fn list(bytes: &[u8]) -> Vec<Atom> {
    let mut input = BytesAtomInput::new(bytes);
    Atom::list(&mut input).unwrap()
}

#[test]
fn find_atom_gives_the_first_match() {
    let atoms = vec![
        Atom { offset: 0, size: 16, magic: MAGIC_FTYP },
        Atom { offset: 16, size: 20, magic: MAGIC_TRAF },
        Atom { offset: 36, size: 24, magic: MAGIC_TRAF },
    ];
    assert_eq!(find_atom(&atoms, MAGIC_TRAF), Some(atoms[1]));
    assert_eq!(find_atom(&atoms, MAGIC_FTYP), Some(atoms[0]));
    assert_eq!(find_atom(&atoms, MAGIC_MOOV), None);
    assert_eq!(find_atom(&[], MAGIC_MOOV), None);
}

#[test]
fn require_atom_names_the_missing_tag() {
    let atoms = vec![
        Atom { offset: 0, size: 16, magic: MAGIC_MOOV },
        Atom { offset: 16, size: 20, magic: MAGIC_MOOV },
    ];
    assert_eq!(require_atom(&atoms, MAGIC_MOOV), Ok(atoms[0]));
    assert_eq!(require_atom(&atoms, MAGIC_FTYP), missing(MAGIC_FTYP));
    assert_eq!(require_atom(&[], MAGIC_MFHD), missing(MAGIC_MFHD));
}

#[test]
fn copy_moves_a_range_in_chunks() {
    let data: Vec<u8> = (0..10_000u32).map(|i| (i % 251) as u8).collect();
    let mut input = BytesAtomInput::new(&data);
    let mut sink: Vec<u8> = vec![7];
    assert_eq!(copy(&mut input, 100, &mut sink, 9000), Ok(()));
    assert_eq!(sink.len(), 9001);
    assert_eq!(sink[0], 7);
    assert_eq!(&sink[1..], &data[100..9100]);

    let mut exact: Vec<u8> = Vec::new();
    assert_eq!(copy(&mut input, 0, &mut exact, 4096), Ok(()));
    assert_eq!(&exact[..], &data[..4096]);
    assert_eq!(copy(&mut input, 4096, &mut exact, 4097), Ok(()));
    assert_eq!(&exact[..], &data[..8193]);

    let mut nothing: Vec<u8> = Vec::new();
    assert_eq!(copy(&mut input, 5, &mut nothing, 0), Ok(()));
    assert_eq!(copy(&mut input, 20_000, &mut nothing, 0), Ok(()));
    assert!(nothing.is_empty());
}

#[test]
fn copy_fails_past_the_end_and_keeps_what_it_copied() {
    let data: Vec<u8> = (0..5000u32).map(|i| (i % 13) as u8).collect();
    let mut input = BytesAtomInput::new(&data);
    let mut sink: Vec<u8> = Vec::new();
    assert_eq!(copy(&mut input, 0, &mut sink, 5001), eof());
    assert_eq!(&sink[..], &data[..4096]);
    let mut other: Vec<u8> = Vec::new();
    assert_eq!(copy(&mut input, 4999, &mut other, 2), eof());
    assert!(other.is_empty());
    assert_eq!(copy(&mut input, u64::MAX, &mut other, 2), eof());
    assert_eq!(copy(&mut input, 4999, &mut other, 1), Ok(()));
    assert_eq!(other, vec![data[4999]]);
}

#[test]
fn fix_offset_keeps_relative_offsets_when_mdat_was_adjacent() {
    let moof = Atom { offset: 1000, size: 200, magic: MAGIC_MOOF };
    let mdat = Atom { offset: 1200, size: 5000, magic: MAGIC_MDAT };
    assert_eq!(fix_offset(moof, mdat, 208, 40, true), 208);
    assert_eq!(fix_offset(moof, mdat, 208, 90_000, true), 208);
    assert_eq!(fix_offset(moof, mdat, 0, 0, true), 0);
    assert_eq!(fix_offset(moof, mdat, u64::MAX, 77, true), u64::MAX);
}

#[test]
fn fix_offset_moves_absolute_offsets_with_moof() {
    let moof = Atom { offset: 1000, size: 200, magic: MAGIC_MOOF };
    let mdat = Atom { offset: 1200, size: 5000, magic: MAGIC_MDAT };
    assert_eq!(fix_offset(moof, mdat, 1208, 40, false), 248);
    assert_eq!(fix_offset(moof, mdat, 1208, 1000, false), 1208);
    assert_eq!(fix_offset(moof, mdat, 1208, 3000, false), 3208);
    assert_eq!(fix_offset(moof, mdat, 1000, 0, false), 0);
}

#[test]
fn fix_offset_closes_the_gap_before_mdat() {
    let moof = Atom { offset: 1000, size: 200, magic: MAGIC_MOOF };
    let later = Atom { offset: 1300, size: 5000, magic: MAGIC_MDAT };
    assert_eq!(fix_offset(moof, later, 1308, 40, false), 1308 + 40 - 1000 + 1200 - 1300);
    assert_eq!(fix_offset(moof, later, 1308, 40, false), 248);
    assert_eq!(fix_offset(moof, later, 308, 40, true), 208);
    let earlier = Atom { offset: 100, size: 900, magic: MAGIC_MDAT };
    assert_eq!(fix_offset(moof, earlier, 108, 5000, false), 108 + 5000 - 1000 + 1200 - 100);
    assert_eq!(fix_offset(moof, earlier, 108, 5000, false), 5208);
}

#[test]
fn fix_offset_wraps_at_64_bits() {
    let moof = Atom { offset: 1000, size: 200, magic: MAGIC_MOOF };
    let mdat = Atom { offset: 1200, size: 5000, magic: MAGIC_MDAT };
    assert_eq!(fix_offset(moof, mdat, 10, 40, false), u64::MAX - 949);
    assert_eq!(fix_offset(moof, mdat, u64::MAX, 1001, false), 0);
    let later = Atom { offset: 1300, size: 5000, magic: MAGIC_MDAT };
    assert_eq!(fix_offset(moof, later, 50, 0, true), u64::MAX - 49);
    let last = Atom { offset: u64::MAX - 11, size: 12, magic: MAGIC_MOOF };
    let first = Atom { offset: 0, size: 12, magic: MAGIC_MDAT };
    assert_eq!(fix_offset(last, first, 5, 0, true), 5);
}

#[test]
fn init_needs_ftyp_and_moov() {
    let only_moov = make_box(b"moov", &[0; 8]);
    assert_eq!(
        kind_of(Init::open(BytesAtomInput::new(&only_moov))),
        Some(ErrorKind::MissingAtom { magic: MAGIC_FTYP })
    );
    let only_ftyp = make_box(b"ftyp", &[0; 8]);
    assert_eq!(
        kind_of(Init::open(BytesAtomInput::new(&only_ftyp))),
        Some(ErrorKind::MissingAtom { magic: MAGIC_MOOV })
    );
    let empty: Vec<u8> = Vec::new();
    assert_eq!(
        kind_of(Init::open(BytesAtomInput::new(&empty))),
        Some(ErrorKind::MissingAtom { magic: MAGIC_FTYP })
    );
    let broken = join(&[make_box(b"ftyp", &[0; 8]), vec![0, 0, 0, 8, b'm', b'o', b'o', b'v']]);
    assert_eq!(
        kind_of(Init::open(BytesAtomInput::new(&broken))),
        Some(ErrorKind::UnexpectedEof)
    );
}

#[test]
fn init_writes_ftyp_then_moov() {
    let ftyp = make_box(b"ftyp", &[1, 2, 3, 4, 5, 6, 7, 8]);
    let free = make_box(b"free", &[9; 10]);
    let moov = make_box(b"moov", &[4; 5000]);
    let second_moov = make_box(b"moov", &[5; 4]);
    let data = join(&[moov.clone(), free, ftyp.clone(), second_moov]);
    let mut init = Init::open(BytesAtomInput::new(&data)).unwrap();
    assert_eq!(init.ftyp(), Atom { offset: 5026, size: 16, magic: MAGIC_FTYP });
    assert_eq!(init.moov(), Atom { offset: 0, size: 5008, magic: MAGIC_MOOV });
    let mut sink: Vec<u8> = vec![0xaa];
    assert_eq!(init.write(&mut sink), Ok(()));
    assert_eq!(sink, join(&[vec![0xaa], ftyp, moov]));
}

#[test]
fn part_needs_moof_mdat_and_mfhd() {
    let moof = make_box(b"moof", &mfhd(3));
    let mdat = make_box(b"mdat", &[0; 4]);
    assert_eq!(
        kind_of(Part::open(BytesAtomInput::new(&mdat))),
        Some(ErrorKind::MissingAtom { magic: MAGIC_MOOF })
    );
    assert_eq!(
        kind_of(Part::open(BytesAtomInput::new(&moof))),
        Some(ErrorKind::MissingAtom { magic: MAGIC_MDAT })
    );
    let no_mfhd = join(&[make_box(b"moof", &make_box(b"traf", &[0; 4])), mdat.clone()]);
    assert_eq!(
        kind_of(Part::open(BytesAtomInput::new(&no_mfhd))),
        Some(ErrorKind::MissingAtom { magic: MAGIC_MFHD })
    );
    let bad_child = join(&[make_box(b"moof", &[0, 0, 0, 9, b'm', b'f', b'h', b'd', 0]), mdat.clone()]);
    assert_eq!(
        kind_of(Part::open(BytesAtomInput::new(&bad_child))),
        Some(ErrorKind::UnexpectedEof)
    );
    let good = join(&[moof, mdat]);
    assert!(Part::open(BytesAtomInput::new(&good)).is_ok());
}

#[test]
fn part_finds_its_boxes() {
    let first_traf = make_box(b"traf", &tfhd(0, 0, &[0; 4]));
    let second_traf = make_box(b"traf", &tfhd(0, 0, &[0; 8]));
    let inner = join(&[first_traf, mfhd(7), make_box(b"free", &[0; 4]), second_traf]);
    let moof = make_box(b"moof", &inner);
    let data = join(&[make_box(b"styp", &[0; 8]), moof.clone(), make_box(b"mdat", &[1; 30])]);
    let part = Part::open(BytesAtomInput::new(&data)).unwrap();
    assert_eq!(part.moof(), Atom { offset: 16, size: 88, magic: MAGIC_MOOF });
    assert_eq!(part.mdat(), Atom { offset: 104, size: 38, magic: MAGIC_MDAT });
    assert_eq!(part.mfhd(), Atom { offset: 24, size: 16, magic: MAGIC_MFHD });
    assert_eq!(
        part.traf(),
        &[
            Atom { offset: 0, size: 24, magic: MAGIC_TRAF },
            Atom { offset: 52, size: 28, magic: MAGIC_TRAF },
        ]
    );
    assert_eq!(part.moof_content(), &moof[..]);
}

fn sequence_after_process(sequence: u32) -> u32 {
    let data = join(&[make_box(b"moof", &mfhd(sequence)), make_box(b"mdat", &[0; 4])]);
    let mut part = Part::open(BytesAtomInput::new(&data)).unwrap();
    assert_eq!(part.process(1234), Ok(()));
    let content = part.moof_content();
    u32::from_be_bytes([content[20], content[21], content[22], content[23]])
}

#[test]
fn process_resets_the_sequence_number() {
    assert_eq!(sequence_after_process(0), 1);
    assert_eq!(sequence_after_process(1), 1);
    assert_eq!(sequence_after_process(5), 1);
    assert_eq!(sequence_after_process(0x0100_0000), 1);
    assert_eq!(sequence_after_process(u32::MAX), 1);
}

#[test]
fn process_changes_nothing_but_the_sequence_number_without_offsets() {
    let traf = make_box(b"traf", &join(&[tfhd(0x02, 0x3a, &[0; 12]), trun(0x04, &[9; 8])]));
    let moof = make_box(b"moof", &join(&[mfhd(9), traf]));
    let data = join(&[moof.clone(), make_box(b"mdat", &[0; 4])]);
    let mut part = Part::open(BytesAtomInput::new(&data)).unwrap();
    assert_eq!(part.process(500), Ok(()));
    let mut expected = moof;
    expected[20..24].copy_from_slice(&[0, 0, 0, 1]);
    assert_eq!(part.moof_content(), &expected[..]);
}

#[test]
fn process_fails_on_a_short_mfhd_at_the_end() {
    let short = make_box(b"mfhd", &[0, 0, 0, 0]);
    let data = join(&[make_box(b"moof", &short), make_box(b"mdat", &[0; 4])]);
    let mut part = Part::open(BytesAtomInput::new(&data)).unwrap();
    assert_eq!(part.process(0), eof());
}

#[test]
fn process_corrects_the_base_data_offset_of_tfhd() {
    let stored: u64 = 0x0000_0001_0000_0010;
    let traf = make_box(b"traf", &tfhd(0, 0x01, &stored.to_be_bytes()));
    let moof = make_box(b"moof", &join(&[mfhd(2), traf]));
    assert_eq!(moof.len(), 52);
    let data = join(&[
        make_box(b"styp", &[0; 8]),
        moof.clone(),
        make_box(b"free", &[0; 12]),
        make_box(b"mdat", &[3; 12]),
    ]);
    let mut part = Part::open(BytesAtomInput::new(&data)).unwrap();
    assert_eq!(part.moof().offset, 16);
    assert_eq!(part.mdat().offset, 88);
    assert_eq!(part.process(1000), Ok(()));
    let fixed: u64 = stored + 1000 - 16 + 16 + 52 - 88;
    let mut expected = moof;
    expected[20..24].copy_from_slice(&[0, 0, 0, 1]);
    expected[44..52].copy_from_slice(&fixed.to_be_bytes());
    assert_eq!(part.moof_content(), &expected[..]);
}

#[test]
fn process_corrects_the_data_offset_of_trun() {
    let traf = make_box(
        b"traf",
        &join(&[tfhd(0x02, 0, &[0, 0, 0, 1]), trun(0x01, &[0, 0, 0, 200])]),
    );
    let moof = make_box(b"moof", &join(&[mfhd(2), traf]));
    assert_eq!(moof.len(), 68);
    let data = join(&[moof.clone(), make_box(b"free", &[0; 92]), make_box(b"mdat", &[3; 12])]);
    let mut part = Part::open(BytesAtomInput::new(&data)).unwrap();
    assert_eq!(part.mdat().offset, 168);
    assert_eq!(part.process(5000), Ok(()));
    let mut expected = moof.clone();
    expected[20..24].copy_from_slice(&[0, 0, 0, 1]);
    expected[64..68].copy_from_slice(&(200u32 + 68 - 168).to_be_bytes());
    assert_eq!(part.moof_content(), &expected[..]);

    let adjacent = join(&[moof.clone(), make_box(b"mdat", &[3; 12])]);
    let mut part = Part::open(BytesAtomInput::new(&adjacent)).unwrap();
    assert_eq!(part.process(5000), Ok(()));
    let mut expected = moof;
    expected[20..24].copy_from_slice(&[0, 0, 0, 1]);
    assert_eq!(part.moof_content(), &expected[..]);
}

#[test]
fn process_keeps_the_low_32_bits_in_trun() {
    let traf = make_box(
        b"traf",
        &join(&[tfhd(0, 0, &[0, 0, 0, 1]), trun(0x01, &[0xff, 0xff, 0xff, 0xf0])]),
    );
    let moof = make_box(b"moof", &join(&[mfhd(2), traf]));
    let data = join(&[moof.clone(), make_box(b"mdat", &[3; 12])]);
    let mut part = Part::open(BytesAtomInput::new(&data)).unwrap();
    assert_eq!(part.process(0x20), Ok(()));
    assert_eq!(&part.moof_content()[64..68], &[0, 0, 0, 0x10]);

    let mut part = Part::open(BytesAtomInput::new(&data)).unwrap();
    assert_eq!(part.process(0x1_0000_0005), Ok(()));
    assert_eq!(&part.moof_content()[64..68], &[0xff, 0xff, 0xff, 0xf5]);
}

#[test]
fn process_prefers_tfhd_over_trun() {
    let stored: u64 = 300;
    let traf = make_box(
        b"traf",
        &join(&[trun(0x01, &[0, 0, 0, 200]), tfhd(0, 0x01, &stored.to_be_bytes())]),
    );
    let moof = make_box(b"moof", &join(&[mfhd(2), traf]));
    let data = join(&[make_box(b"free", &[0; 4]), moof.clone(), make_box(b"mdat", &[3; 12])]);
    let mut part = Part::open(BytesAtomInput::new(&data)).unwrap();
    assert_eq!(part.process(112), Ok(()));
    let mut expected = moof;
    expected[20..24].copy_from_slice(&[0, 0, 0, 1]);
    expected[64..72].copy_from_slice(&400u64.to_be_bytes());
    assert_eq!(part.moof_content(), &expected[..]);
}

#[test]
fn process_corrects_every_traf() {
    let first = make_box(b"traf", &tfhd(0, 0x01, &100u64.to_be_bytes()));
    let second = make_box(b"traf", &tfhd(0x02, 0x01, &100u64.to_be_bytes()));
    let moof = make_box(b"moof", &join(&[first, mfhd(2), second]));
    let data = join(&[moof.clone(), make_box(b"mdat", &[3; 12])]);
    let mut part = Part::open(BytesAtomInput::new(&data)).unwrap();
    assert_eq!(part.process(50), Ok(()));
    let mut expected = moof;
    expected[28..36].copy_from_slice(&150u64.to_be_bytes());
    expected[48..52].copy_from_slice(&[0, 0, 0, 1]);
    assert_eq!(part.moof_content(), &expected[..]);
}

#[test]
fn process_fails_on_a_traf_without_tfhd() {
    let good = make_box(b"traf", &tfhd(0, 0x01, &100u64.to_be_bytes()));
    let bad = make_box(b"traf", &trun(0x01, &[0, 0, 0, 200]));
    let moof = make_box(b"moof", &join(&[mfhd(2), good, bad]));
    let data = join(&[moof.clone(), make_box(b"mdat", &[3; 12])]);
    let mut part = Part::open(BytesAtomInput::new(&data)).unwrap();
    assert_eq!(part.process(50), missing(MAGIC_TFHD));
    let mut expected = moof;
    expected[20..24].copy_from_slice(&[0, 0, 0, 1]);
    expected[44..52].copy_from_slice(&150u64.to_be_bytes());
    assert_eq!(part.moof_content(), &expected[..]);
}

#[test]
fn process_fails_on_a_traf_with_a_broken_box() {
    let traf = make_box(b"traf", &[0, 0, 0, 40, b't', b'f', b'h', b'd', 0, 0, 0, 1]);
    let moof = make_box(b"moof", &join(&[mfhd(2), traf]));
    let data = join(&[moof, make_box(b"mdat", &[3; 12])]);
    let mut part = Part::open(BytesAtomInput::new(&data)).unwrap();
    assert_eq!(part.process(50), eof());
}

#[test]
fn process_fails_on_a_field_that_leaves_the_traf() {
    let short_tfhd = make_box(b"traf", &tfhd(0, 0x01, &[0, 0, 0, 1]));
    let moof = make_box(b"moof", &join(&[mfhd(2), short_tfhd, make_box(b"free", &[0; 8])]));
    let data = join(&[moof, make_box(b"mdat", &[3; 12])]);
    let mut part = Part::open(BytesAtomInput::new(&data)).unwrap();
    assert_eq!(part.process(50), eof());

    let short_trun = make_box(b"traf", &join(&[tfhd(0, 0, &[0, 0, 0, 1]), trun(0x01, &[0, 0])]));
    let moof = make_box(b"moof", &join(&[mfhd(2), short_trun, make_box(b"free", &[0; 8])]));
    let data = join(&[moof, make_box(b"mdat", &[3; 12])]);
    let mut part = Part::open(BytesAtomInput::new(&data)).unwrap();
    assert_eq!(part.process(50), eof());
}

#[test]
fn plan_fixup_finds_the_field() {
    let traf = make_box(
        b"traf",
        &join(&[tfhd(0x02, 0, &[0, 0, 0, 1]), trun(0x01, &[0, 0, 0, 200])]),
    );
    let moof = make_box(b"moof", &join(&[mfhd(2), traf]));
    let children = list(&moof[8..]);
    assert_eq!(children[1], Atom { offset: 16, size: 44, magic: MAGIC_TRAF });
    assert_eq!(
        plan_fixup(&moof, children[1]),
        Ok(Fixup::DataOffset { at: 64, base_moof: true })
    );
    let inner = list(&moof[32..]);
    assert_eq!(inner[0].magic, MAGIC_TFHD);
    assert_eq!(inner[1], Atom { offset: 16, size: 20, magic: MAGIC_TRUN });

    let traf = make_box(b"traf", &tfhd(0xfd, 0xff, &[0; 8]));
    let moof = make_box(b"moof", &join(&[mfhd(2), traf]));
    let children = list(&moof[8..]);
    assert_eq!(
        plan_fixup(&moof, children[1]),
        Ok(Fixup::BaseDataOffset { at: 44, base_moof: false })
    );

    let traf = make_box(b"traf", &tfhd(0xff, 0xfe, &[0; 8]));
    let moof = make_box(b"moof", &join(&[mfhd(2), traf]));
    let children = list(&moof[8..]);
    assert_eq!(plan_fixup(&moof, children[1]), Ok(Fixup::Nothing));
}

#[test]
fn fixup_apply_rewrites_one_field() {
    let moof = Atom { offset: 100, size: 60, magic: MAGIC_MOOF };
    let mdat = Atom { offset: 160, size: 40, magic: MAGIC_MDAT };
    let mut buf: Vec<u8> = (0u8..24).collect();
    Fixup::Nothing.apply(&mut buf, moof, mdat, 7);
    assert_eq!(buf, (0u8..24).collect::<Vec<u8>>());
    buf[4..12].copy_from_slice(&500u64.to_be_bytes());
    Fixup::BaseDataOffset { at: 4, base_moof: false }.apply(&mut buf, moof, mdat, 7);
    assert_eq!(&buf[4..12], &407u64.to_be_bytes());
    assert_eq!(&buf[..4], &[0, 1, 2, 3]);
    assert_eq!(&buf[12..], &(12u8..24).collect::<Vec<u8>>()[..]);
    buf[20..24].copy_from_slice(&68u32.to_be_bytes());
    Fixup::DataOffset { at: 20, base_moof: true }.apply(&mut buf, moof, mdat, 7);
    assert_eq!(&buf[20..24], &68u32.to_be_bytes());
    Fixup::DataOffset { at: 20, base_moof: false }.apply(&mut buf, moof, mdat, 132);
    assert_eq!(&buf[20..24], &100u32.to_be_bytes());
}

#[test]
fn fix_traf_and_fix_trafs_agree() {
    let first = make_box(b"traf", &tfhd(0, 0x01, &100u64.to_be_bytes()));
    let second = make_box(b"traf", &tfhd(0, 0x01, &200u64.to_be_bytes()));
    let moof_bytes = make_box(b"moof", &join(&[first, second]));
    let moof = Atom { offset: 10, size: 64, magic: MAGIC_MOOF };
    let mdat = Atom { offset: 74, size: 40, magic: MAGIC_MDAT };
    let trafs = list(&moof_bytes[8..]);
    let mut one_by_one = moof_bytes.clone();
    assert_eq!(fix_traf(&mut one_by_one, trafs[0], moof, mdat, 15), Ok(()));
    assert_eq!(&one_by_one[28..36], &105u64.to_be_bytes());
    assert_eq!(&one_by_one[56..64], &200u64.to_be_bytes());
    assert_eq!(fix_traf(&mut one_by_one, trafs[1], moof, mdat, 15), Ok(()));
    let mut at_once = moof_bytes;
    assert_eq!(fix_trafs(&mut at_once, &trafs, moof, mdat, 15), Ok(()));
    assert_eq!(at_once, one_by_one);
    assert_eq!(&at_once[56..64], &205u64.to_be_bytes());
}

#[test]
fn part_writes_moof_then_mdat() {
    let moof = make_box(b"moof", &mfhd(4));
    let mdat = make_box(b"mdat", &[6; 5000]);
    let data = join(&[mdat.clone(), make_box(b"free", &[0; 4]), moof.clone()]);
    let mut part = Part::open(BytesAtomInput::new(&data)).unwrap();
    let mut sink: Vec<u8> = vec![1, 2, 3];
    assert_eq!(part.write(&mut sink), Ok(()));
    assert_eq!(sink, join(&[vec![1, 2, 3], moof, mdat]));
}

fn minimal_part(sequence: u32, stored: u64) -> (Vec<u8>, Vec<u8>) {
    let traf = make_box(b"traf", &tfhd(0, 0x01, &stored.to_be_bytes()));
    let moof = make_box(b"moof", &join(&[mfhd(sequence), traf]));
    let mdat = make_box(b"mdat", &[0xd; 12]);
    (moof, mdat)
}

#[test]
fn combine_end_to_end() {
    let ftyp = make_box(b"ftyp", &[b'i', b's', b'o', b'm', 0, 0, 0, 1]);
    let moov = make_box(b"moov", &[0; 4]);
    assert_eq!(ftyp.len(), 16);
    assert_eq!(moov.len(), 12);
    let init = join(&[ftyp.clone(), moov.clone()]);
    let (moof, mdat) = minimal_part(5, 52 + 16);
    assert_eq!(mdat.len(), 20);
    let part = join(&[moof.clone(), make_box(b"free", &[0; 8]), mdat.clone()]);
    let mut output: Vec<u8> = Vec::new();
    assert_eq!(
        combine_mp4(BytesAtomInput::new(&init), BytesAtomInput::new(&part), &mut output),
        Ok(())
    );
    assert_eq!(
        list(&output),
        vec![
            Atom { offset: 0, size: 16, magic: MAGIC_FTYP },
            Atom { offset: 16, size: 12, magic: MAGIC_MOOV },
            Atom { offset: 28, size: 52, magic: MAGIC_MOOF },
            Atom { offset: 80, size: 20, magic: MAGIC_MDAT },
        ]
    );
    let mut expected_moof = moof;
    expected_moof[20..24].copy_from_slice(&[0, 0, 0, 1]);
    expected_moof[44..52].copy_from_slice(&80u64.to_be_bytes());
    assert_eq!(output, join(&[ftyp, moov, expected_moof, mdat]));
    assert_eq!(&output[28 + 20..28 + 24], &[0, 0, 0, 1]);
}

#[test]
fn combine_rejects_a_moov_of_eight_bytes() {
    let init = join(&[make_box(b"ftyp", &[0; 8]), make_box(b"moov", &[])]);
    assert_eq!(init.len(), 24);
    let (moof, mdat) = minimal_part(5, 68);
    let part = join(&[moof, make_box(b"free", &[0; 8]), mdat]);
    let mut output: Vec<u8> = Vec::new();
    assert_eq!(
        combine_mp4(BytesAtomInput::new(&init), BytesAtomInput::new(&part), &mut output),
        eof()
    );
    assert!(output.is_empty());
}

#[test]
fn combine_appends_to_what_the_sink_holds() {
    let init = join(&[make_box(b"ftyp", &[0; 8]), make_box(b"moov", &[0; 4])]);
    let (moof, mdat) = minimal_part(9, 52);
    let part = join(&[moof, mdat]);
    let mut output: Vec<u8> = vec![0; 100];
    assert_eq!(
        combine_mp4(BytesAtomInput::new(&init), BytesAtomInput::new(&part), &mut output),
        Ok(())
    );
    assert_eq!(output.len(), 100 + 28 + 52 + 20);
    assert_eq!(&output[100 + 28 + 44..100 + 28 + 52], &(52u64 + 128).to_be_bytes());
}

#[test]
fn combine_keeps_the_init_boxes_when_the_part_fails() {
    let init = join(&[make_box(b"ftyp", &[0; 8]), make_box(b"moov", &[0; 4])]);
    let part = make_box(b"mdat", &[0; 4]);
    let mut output: Vec<u8> = Vec::new();
    assert_eq!(
        combine_mp4(BytesAtomInput::new(&init), BytesAtomInput::new(&part), &mut output),
        missing(MAGIC_MOOF)
    );
    assert_eq!(output, init);

    let mut untouched: Vec<u8> = Vec::new();
    assert_eq!(
        combine_mp4(BytesAtomInput::new(&part), BytesAtomInput::new(&part), &mut untouched),
        missing(MAGIC_FTYP)
    );
    assert!(untouched.is_empty());
}

#[test]
fn test_combine() {
    let init_mp4 = join(&[make_box(b"ftyp", &[0; 8]), make_box(b"moov", &[0; 64])]);
    let (moof, mdat) = minimal_part(17, 52);
    let part1_m4s = join(&[moof, mdat]);
    let mut output_mp4: Vec<u8> = Vec::new();
    combine_mp4(
        BytesAtomInput::new(&init_mp4),
        BytesAtomInput::new(&part1_m4s),
        &mut output_mp4,
    )
    .expect("combine failed");
    assert_eq!(output_mp4.len(), init_mp4.len() + part1_m4s.len());
}
