use hevc_grain::bits::{BitReader, BitWriter, Field};
use hevc_grain::error::Error;

#[test]
fn numbers_are_written_most_significant_bit_first() {
    let mut w = BitWriter::new(Vec::new());
    w.write(0b101, 3).unwrap();
    w.write(0xff, 8).unwrap();
    w.byte_align().unwrap();
    assert_eq!(w.finish(), vec![0b1011_1111, 0b1111_0000]);
}

#[test]
fn a_whole_byte_needs_no_alignment() {
    let mut w = BitWriter::new(vec![7]);
    w.write(0x5a, 8).unwrap();
    w.byte_align().unwrap();
    assert_eq!(w.finish(), vec![7, 0x5a]);
}

#[test]
fn a_value_that_does_not_fit_is_refused() {
    let mut w = BitWriter::new(Vec::new());
    assert_eq!(w.write(4, 2), Err(Error::ValueTooWide { value: 4, bits: 2 }));
    assert_eq!(w.write(u64::MAX, 64), Ok(()));
}

#[test]
fn fields_in_front_of_one_that_does_not_fit_are_written() {
    let mut w = BitWriter::new(vec![7]);
    let fields = vec![
        Field { value: 0b101, width: 3 },
        Field { value: 1, width: 5 },
        Field { value: 4, width: 2 },
        Field { value: 0xff, width: 8 },
    ];
    assert_eq!(
        w.write_fields(&fields),
        Err(Error::ValueTooWide { value: 4, bits: 2 })
    );
    w.byte_align().unwrap();
    assert_eq!(w.finish(), vec![7, 0b1010_0001]);
}

#[test]
fn numbers_are_read_as_written() {
    let data = [0b1011_1111, 0b1111_0000];
    let mut r = BitReader::new(&data);
    assert_eq!(r.read(3), Ok(0b101));
    assert_eq!(r.read(8), Ok(0xff));
    assert_eq!(r.read(0), Ok(0));
    assert_eq!(r.read(5), Ok(0b10000));
    assert_eq!(r.read(1), Err(Error::EndedEarly { bits: 1 }));
}

#[test]
fn more_than_sixty_four_bits_are_refused() {
    let data = [0u8; 20];
    let mut r = BitReader::new(&data);
    assert_eq!(r.read(65), Err(Error::EndedEarly { bits: 65 }));
    assert_eq!(r.read(64), Ok(0));
}
