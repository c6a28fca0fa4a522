//! Variable-length numbers written and read back.
use facet_minecraft::cursor::bytes_to_variable;
use facet_minecraft::varint::variable_to_bytes;

#[test]
fn variable_reads_back() {
    for val in [0u128, 1, 127, 128, 300, 0xFFFF_FFFF, u64::MAX as u128, u128::MAX] {
        let mut buf = [0u8; 19];
        let n = variable_to_bytes(val, &mut buf);
        let mut input = buf[..n].to_vec();
        input.extend_from_slice(&[0x7f, 0x01]);
        assert_eq!(bytes_to_variable(&input).ok(), Some((n, val)));
    }
}

#[test]
fn variable_runs_out() {
    for k in 0..19 {
        let input = vec![0x80u8; k];
        match bytes_to_variable(&input) {
            Err(e) => {
                assert_eq!(e.had, k);
                assert_eq!(e.expected, 1);
            }
            Ok(_) => panic!("{k} continuation bytes hold no number"),
        }
    }
}
