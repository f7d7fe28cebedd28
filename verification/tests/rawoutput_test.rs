#![allow(non_snake_case)]

use serde_fressian::imp::rawoutput::FressianWriter;

#[test]
fn RawOutput_ints_test() {
        let mut fw = FressianWriter::from_vec(Vec::new());
        //Short/MIN_VALUE
        let v: i16 = -32768;
        let control: Vec<u8> = vec![103, 128, 0];
        fw.write_int(v as i64).unwrap();
        assert_eq!(&fw.to_vec(), &control);

        //Short/MAX_VALUE
        let v: i16 = 32767;
        let control: Vec<u8> = vec![104, 127, 255];
        fw.reset();
        fw.write_int(v as i64).unwrap();
        assert_eq!(&fw.to_vec(), &control);

        //Integer/MIN_VALUE
        let v: i32 = -2147483648;
        let control: Vec<u8> = vec![117, 128, 0, 0, 0];
        fw.reset();
        fw.write_int(v as i64).unwrap();
        assert_eq!(&fw.to_vec(), &control);

        //Integer/MAX_VALUE
        let v: i32 = 2147483647;
        let control: Vec<u8> = vec![118, 127, 255, 255, 255];
        fw.reset();
        fw.write_int(v as i64).unwrap();
        assert_eq!(&fw.to_vec(), &control);

        // min i40
        let v: i64 = -549755813887;
        let control: Vec<u8> = vec![121, 128, 0, 0, 0, 1];
        fw.reset();
        fw.write_int(v as i64).unwrap();
        assert_eq!(&fw.to_vec(), &control);

        // max i40
        let v: i64 = 549755813888;
        let control: Vec<u8> = vec![122, 128, 0, 0, 0, 0];
        fw.reset();
        fw.write_int(v as i64).unwrap();
        assert_eq!(&fw.to_vec(), &control);

        // max i48
        let v: i64 = 140737490000000;
        let control: Vec<u8> = vec![126, 128, 0, 0, 25, 24, 128];
        fw.reset();
        fw.write_int(v as i64).unwrap();
        assert_eq!(&fw.to_vec(), &control);

        // JS_MAX_SAFE_INT
        let v: i64 = 9007199254740991;
        let control: Vec<u8> = vec![248, 0, 31, 255, 255, 255, 255, 255, 255];
        fw.reset();
        fw.write_int(v as i64).unwrap();
        assert_eq!(&fw.to_vec(), &control);

        // JS_MAX_SAFE_INT++
        let v: i64 = 9007199254740992;
        let control: Vec<u8> = vec![248, 0, 32, 0, 0, 0, 0, 0, 0];
        fw.reset();
        fw.write_int(v as i64).unwrap();
        assert_eq!(&fw.to_vec(), &control);

        // JS_MIN_SAFE_INT
        let v: i64 = -9007199254740991;
        let control: Vec<u8> = vec![248, 255, 224, 0, 0, 0, 0, 0, 1];
        fw.reset();
        fw.write_int(v as i64).unwrap();
        assert_eq!(&fw.to_vec(), &control);

        // JS_MIN_SAFE_INT--
        let v: i64 = -9007199254740992;
        let control: Vec<u8> = vec![248, 255, 224, 0, 0, 0, 0, 0, 0];
        fw.reset();
        fw.write_int(v as i64).unwrap();
        assert_eq!(&fw.to_vec(), &control);

        // long max (i64)
        let v: i64 = 9223372036854775807;
        let control: Vec<u8> = vec![248, 127, 255, 255, 255, 255, 255, 255, 255];
        fw.reset();
        fw.write_int(v as i64).unwrap();
        assert_eq!(&fw.to_vec(), &control);

        // long min (i64)
        let v: i64 = -9223372036854775808;
        let control: Vec<u8> = vec![248, 128, 0, 0, 0, 0, 0, 0, 0];
        fw.reset();
        fw.write_int(v as i64).unwrap();
        assert_eq!(&fw.to_vec(), &control);
    }

#[test]
fn RawOutput_write_floats_test() {
        let mut fw = FressianWriter::from_vec(Vec::new());

        //Float/MIN_VALUE
        let v: f32 = 1.4E-45;
        let control: Vec<u8> = vec![249, 0, 0, 0, 1];
        fw.write_float(v.to_bits()).unwrap();
        assert_eq!(&fw.to_vec(), &control);

        fw.reset();

        //Float/MAX_VALUE
        let v: f32 = 3.4028235E38;
        let control: Vec<u8> = vec![249, 127, 127, 255, 255];
        fw.write_float(v.to_bits()).unwrap();
        assert_eq!(&fw.to_vec(), &control);

        fw.reset();

        // DOUBLE/MIN_VALUE
        let v: f64 = 4.9E-324;
        let control: Vec<u8> = vec![250, 0, 0, 0, 0, 0, 0, 0, 1];
        fw.write_double(v.to_bits()).unwrap();
        assert_eq!(&fw.to_vec(), &control);

        fw.reset();

        // DOUBLE/MAX_VALUE
        let v: f64 = 1.7976931348623157E308;
        let control: Vec<u8> = vec![250, 127, 239, 255, 255, 255, 255, 255, 255 ];
        fw.write_double(v.to_bits()).unwrap();
        assert_eq!(&fw.to_vec(), &control);
    }

#[test]
fn RawOutput_write_bytes_test() {
        let mut fw = FressianWriter::from_vec(Vec::new());

        // packed count
        let v: Vec<u8> = vec![255,254,253,0,1,2,3];
        let control: Vec<u8> = vec![215,255,254,253,0,1,2,3];
        fw.write_bytes(v.as_slice(), 0, v.len()).unwrap();
        assert_eq!(&fw.to_vec(), &control);

        fw.reset();

        // unpacked length
        let v: Vec<u8> = vec![252,253,254,255,0,1,2,3,4];
        let control: Vec<u8> = vec![217, 9, 252, 253, 254, 255, 0, 1, 2, 3, 4];
        fw.write_bytes(v.as_slice(), 0, v.len()).unwrap();
        assert_eq!(&fw.to_vec(), &control);

        //missing chunked
    }

#[test]
fn RawOutput_write_string_test() {
        let mut fw = FressianWriter::from_vec(Vec::new());

        let v = "".to_string();
        let control: Vec<u8> = vec![218];
        fw.write_string(&v).unwrap();
        assert_eq!(&fw.to_vec(), &control);

        fw.reset();

        let v = "hola".to_string();
        let control: Vec<u8> = vec![222,104,111,108,97];
        fw.write_string(&v).unwrap();
        assert_eq!(&fw.to_vec(), &control);

        fw.reset();

        let v = "é❤️ßℝ東京東京😉 😎 🤔 😐 🙄".to_string();
        let control: Vec<u8> = vec![227,60,101,204,129,226,157,164,239,184,143,195,159,226,132,157,230,157,177,228,186,172,230,157,177,228,186,172,237,160,189,237,184,137,32,237,160,189,237,184,142,32,237,160,190,237,180,148,32,237,160,189,237,184,144,32,237,160,189,237,185,132];
        fw.write_string(&v).unwrap();
        assert_eq!(&fw.to_vec(), &control);

        // missing chunked
    }

#[test]
fn long_string_chunks_carry_their_own_bytes() {
    let text: String = "a".repeat(65535) + &"b".repeat(4465);
    let mut wrt = FressianWriter::from_vec(Vec::new());
    wrt.write_string(&text).unwrap();
    let bytes = wrt.to_vec();
    let mut expected: Vec<u8> = vec![0xE2, 0x68, 0xFF, 0xFF];
    expected.extend(std::iter::repeat(b'a').take(65535));
    expected.extend_from_slice(&[0xE3, 0x68, 0x11, 0x71]);
    expected.extend(std::iter::repeat(b'b').take(4465));
    assert_eq!(bytes.len(), expected.len());
    assert!(bytes == expected);
}

#[test]
fn write_raw_utf8_test() {
    let mut fw = FressianWriter::from_vec(Vec::new());

    fw.write_raw_utf8("").unwrap();
    assert_eq!(fw.to_vec(), vec![191, 0]);

    fw.reset();
    fw.write_raw_utf8("hola").unwrap();
    assert_eq!(fw.to_vec(), vec![191, 4, 104, 111, 108, 97]);

    fw.reset();
    let v = "e\u{301}\u{2764}\u{fe0f}\u{df}\u{211d}\u{6771}\u{4eac}\u{6771}\u{4eac}\u{1f609} \u{1f60e} \u{1f914} \u{1f610} \u{1f644}";
    let control: Vec<u8> = vec![191,50,101,204,129,226,157,164,239,184,143,195,159,226,132,157,230,157,177,228,186,172,230,157,177,228,186,172,240,159,152,137,32,240,159,152,142,32,240,159,164,148,32,240,159,152,144,32,240,159,153,132];
    fw.write_raw_utf8(v).unwrap();
    assert_eq!(fw.to_vec(), control);
}
