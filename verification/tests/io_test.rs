use serde_fressian::imp::io::{ByteReader, ByteWriter, IWriteBytes};

#[test]
fn read_byte_test() {
    let data: Vec<u8> = vec![0, 1, 2];
    let mut rdr = ByteReader::from_vec(&data);

    assert_eq!(0, rdr.get_bytes_read());
    assert!(matches!(rdr.read_u8(), Ok(&0)));
    assert!(matches!(rdr.read_u8(), Ok(&1)));
    assert!(matches!(rdr.read_u8(), Ok(&2)));
    assert_eq!(3, rdr.get_bytes_read());
    assert!(rdr.read_u8().unwrap_err().is_eof());
    assert_eq!(3, rdr.get_bytes_read());
    rdr.reset();
    assert_eq!(0, rdr.get_bytes_read());
    assert!(matches!(rdr.read_u8(), Ok(&0)));
}

#[test]
fn io_read_bytes_test() {
    let data: Vec<u8> = vec![0, 1, 2, 3, 4];
    let mut rdr = ByteReader::from_vec(&data);

    assert!(rdr.read_bytes(6).unwrap_err().is_eof());
    let control: &[u8] = &[0, 1];
    assert_eq!(0, rdr.get_bytes_read());
    assert_eq!(control, rdr.read_bytes(2).unwrap());
    assert_eq!(2, rdr.get_bytes_read());
    assert!(rdr.read_bytes(4).unwrap_err().is_eof());
    let control: &[u8] = &[2, 3, 4];
    assert_eq!(control, rdr.read_bytes(3).unwrap());
    assert_eq!(5, rdr.get_bytes_read());
    assert!(rdr.read_u8().unwrap_err().is_eof());
    rdr.reset();
    let control: &[u8] = &[0, 1, 2, 3, 4];
    assert_eq!(control, rdr.read_bytes(5).unwrap());
}

#[test]
fn write_u8_test() {
    let mut wrt = ByteWriter::from_vec(Vec::new());
    wrt.write_u8(99 as u8).unwrap();
    wrt.write_u8(100 as u8).unwrap();
    wrt.write_u8(101 as u8).unwrap();
    let control: Vec<u8> = vec![99, 100, 101];
    assert_eq!(&wrt.to_vec(), &control);
    assert_eq!(wrt.get_bytes_written(), 3);
    wrt.reset();
    assert_eq!(wrt.get_bytes_written(), 0);
    wrt.write_u8(54 as u8).unwrap();
    let control: Vec<u8> = vec![54];
    assert_eq!(&wrt.to_vec(), &control);
}

#[test]
fn io_write_bytes_test() {
    let mut wrt = ByteWriter::from_vec(Vec::new());
    let v: Vec<u8> = vec![255, 254, 253, 0, 1, 2, 3];
    wrt.write_bytes(v.as_slice(), 0, v.len()).unwrap();
    assert_eq!(&wrt.to_vec(), &v);
    wrt.reset();
    assert_eq!(&wrt.to_vec(), &Vec::<u8>::new());
    wrt.write_bytes(v.as_slice(), 2, 3).unwrap();
    assert_eq!(&wrt.to_vec(), &vec![253, 0, 1]);
}

#[test]
fn read_bytes_refuses_zero_length() {
    let data: Vec<u8> = vec![0, 1];
    let mut rdr = ByteReader::from_vec(&data);
    let err = rdr.read_bytes(0).unwrap_err();
    assert!(matches!(err.err.code, serde_fressian::error::ErrorCode::ExpectedNonZeroReadLength));
    assert_eq!(0, rdr.get_bytes_read());
}

#[test]
fn peek_does_not_consume() {
    let data: Vec<u8> = vec![7, 8];
    let mut rdr = ByteReader::from_vec(&data);
    assert!(matches!(rdr.peek_u8(), Ok(&7)));
    assert!(matches!(rdr.peek_u8(), Ok(&7)));
    assert_eq!(0, rdr.get_bytes_read());
    assert_eq!(-1, {
        let d: Vec<u8> = vec![255];
        let mut r = ByteReader::from_vec(&d);
        r.read_i8().unwrap()
    });
}

#[test]
fn writer_buffer_is_reused_after_reset() {
    let mut wrt = ByteWriter::from_vec(Vec::new());
    wrt.write_bytes(&[1, 2, 3], 0, 3).unwrap();
    wrt.reset();
    wrt.write_u8(9).unwrap();
    assert_eq!(wrt.to_vec(), vec![9]);
    assert_eq!(wrt.get_ref(), &vec![9, 2, 3]);
    assert_eq!(wrt.into_inner(), vec![9, 2, 3]);
}

#[test]
fn writer_buffer_after_writes() {
    let mut wrt = ByteWriter::from_vec(Vec::new());
    wrt.write_bytes(&[1, 2, 3, 4], 0, 4).unwrap();
    wrt.reset();
    wrt.write_u8(9).unwrap();
    assert_eq!(wrt.to_vec(), vec![9]);
    assert_eq!(wrt.into_inner(), vec![9, 2, 3, 4]);

    let mut wrt = ByteWriter::from_vec(vec![7, 7, 7]);
    wrt.write_u8(1).unwrap();
    assert_eq!(wrt.get_ref(), &vec![1, 7, 7]);
    assert_eq!(wrt.to_vec(), vec![1]);
    assert_eq!(wrt.get_bytes_written(), 1);

    let mut wrt = ByteWriter::from_vec(Vec::new());
    wrt.write_u8(5).unwrap();
    wrt.get_mut().push(6);
    assert_eq!(wrt.get_ref(), &vec![5, 6]);
    assert_eq!(wrt.get_bytes_written(), 1);
    assert_eq!(wrt.to_vec(), vec![5]);
    assert_eq!(wrt.into_inner(), vec![5, 6]);
}
