use bip::bencode::decode::{decode_bytes, decode_int};
use bip::bencode::options::BDecodeOpt;
use bip::bencode::list::{BListAccess, BListIter};
use bip::bencode::reference::BencodeRef;
use bip::bencode::value::{Bencode, BencodeMut, BencodeMutKind, BencodeRefKind};
use bip::bencode::BEN_END;

const GENERAL: &'static [u8] = b"d0:12:zero_len_key8:location17:udp://test.com:8011:nested dictd4:listli-500500eee6:numberi500500ee";
const RECURSION: &'static [u8] = b"lllllllllllllllllllllllllllllllllllllllllllllllllllllllllllllllllllllllllllllllllllllllllllllllllllllllllllllllllllllllllllllllllllllllllllllllllllllllllllllllllllllllllllllllllllllllllllllllllllllllllllllllllllllllllllllllllllllllllllllllllllllllllllllllllllllllllllllllllllllllllllllllllllllllllllllllllllllllllllllllllllllllllllllllllllllllllllllllllllllllllllllllllllllllllllllllllllllllllllllllllllllllllllllllllllllllllllllllllllllllllllllllllllllllllllllllllllllllllllllllllllllllllllllllllllllllllllllllllllllllllllllllllllllllllllllllllllllllllllllllllllllllllllllllllllllllllllllllllllllllllllllllllllllllllllllllllllllllllllllllllllllllllllllllllllllllllllllllllllllllllllllllllllllllllllllllllllllllllllllllllllllllllllllllllllllllllllllllllllllllllllllllllllllllllllllllllllllllllllllllllllllllllllllllllllllllllllllllllllllllllllllllllllllllllllllllllllllllllllllllllllllllllllllllllllllllllllllllllllllllllllllllllllllllllllllllllllllllllllllllllllllllllllllllllllllllllllllllllllllllleeeeeeeeeeeeeeeeeeeeeeeeeeeeeeeeeeeeeeeeeeeeeeeeeeeeeeeeeeeeeeeeeeeeeeeeeeeeeeeeeeeeeeeeeeeeeeeeeeeeeeeeeeeeeeeeeeeeeeeeeeeeeeeeeeeeeeeeeeeeeeeeeeeeeeeeeeeeeeeeeeeeeeeeeeeeeeeeeeeeeeeeeeeeeeeeeeeeeeeeeeeeeeeeeeeeeeeeeeeeeeeeeeeeeeeeeeeeeeeeeeeeeeeeeeeeeeeeeeeeeeeeeeeeeeeeeeeeeeeeeeeeeeeeeeeeeeeeeeeeeeeeeeeeeeeeeeeeeeeeeeeeeeeeeeeeeeeeeeeeeeeeeeeeeeeeeeeeeeeeeeeeeeeeeeeeeeeeeeeeeeeeeeeeeeeeeeeeeeeeeeeeeeeeeeeeeeeeeeeeeeeeeeeeeeeeeeeeeeeeeeeeeeeeeeeeeeeeeeeeeeeeeeeeeeeeeeeeeeeeeeeeeeeeeeeeeeeeeeeeeeeeeeeeeeeeeeeeeeeeeeeeeeeeeeeeeeeeeeeeeeeeeeeeeeeeeeeeeeeeeeeeeeeeeeeeeeeeeeeeeeeeeeeeeeeeeeeeeeeeeeeeeeeeeeeeeeeeeeeeeeeeeeeeeeeeeeeeeeeeeeeeeeeeeeeeeeeeeeeeeeeeeeeeeeeeeeeeeeeeeeeeeeeeeeeeeeeeeeeeeeeeeeeeeeeeeeeeeeeeeeeeeeeeeeeeeeeeeeeeeeeeeeeeeeeeeeeeeeeeeeeeeeeeeeeeeeeeeeeeeeeeeeeeeeeeeeeeeeeeeeeeeeeeeeeeeeeeeeeeeeeeeeeeeeeeeeeeeeeeeeeeeeeeeeeeeeeeeeeeeeeeeeeeeeeeeeeeeeeeeeeeeeeeeeeeeeeeeeeeeeeeeeeeeeeeeeeeeeeeeeeeeeeeeeeeeeeeeeeeeeeeeeeeeeeeeeeeeeeeeeeeeeeeeeeeeeeeeeeeeeeeeeeeeeeeeeeeeeee";
const BYTES_UTF8: &'static [u8] = b"16:valid_utf8_bytes";
const DICTIONARY: &'static [u8] = b"d9:test_dictd10:nested_key12:nested_value11:nested_listli500ei-500ei0eee8:test_key10:test_valuee";
const LIST: &'static [u8] = b"l10:test_bytesi500ei0ei-500el12:nested_bytesed8:test_key10:test_valueee";
const BYTES: &'static [u8] = b"5:\xC5\xE6\xBE\xE6\xF2";
const BYTES_ZERO_LEN: &'static [u8] = b"0:";
const INT: &'static [u8] = b"i500e";
const INT_NEGATIVE: &'static [u8] = b"i-500e";
const INT_ZERO: &'static [u8] = b"i0e";

const BYTES_NEG_LEN: &'static [u8] = b"-4:test";
const BYTES_EXTRA: &'static [u8] = b"l15:processed_bytese17:unprocessed_bytes";
const BYTES_NOT_UTF8: &'static [u8] = b"5:\xC5\xE6\xBE\xE6\xF2";
const INT_NAN: &'static [u8] = b"i500a500e";
const INT_LEADING_ZERO: &'static [u8] = b"i0500e";
const INT_DOUBLE_ZERO: &'static [u8] = b"i00e";
const INT_NEGATIVE_ZERO: &'static [u8] = b"i-0e";
const INT_DOUBLE_NEGATIVE: &'static [u8] = b"i--5e";
const DICT_UNORDERED_KEYS: &'static [u8] = b"d5:z_key5:value5:a_key5:valuee";
const DICT_DUP_KEYS_SAME_DATA: &'static [u8] = b"d5:a_keyi0e5:a_keyi0ee";
const DICT_DUP_KEYS_DIFF_DATA: &'static [u8] = b"d5:a_keyi0e5:a_key7:a_valuee";

#[test]
fn positive_decode_general() {
    let bencode = Bencode::decode(GENERAL).unwrap();

    let ben_dict = bencode.dict().unwrap();
    assert_eq!(ben_dict.lookup("".as_bytes()).unwrap().str().unwrap(), "zero_len_key");
    assert_eq!(ben_dict.lookup("location".as_bytes()).unwrap().str().unwrap(), "udp://test.com:80");
    assert_eq!(ben_dict.lookup("number".as_bytes()).unwrap().int_value().unwrap(), 500500i64);

    let nested_dict = ben_dict.lookup("nested dict".as_bytes()).unwrap().dict().unwrap();
    let nested_list = nested_dict.lookup("list".as_bytes()).unwrap().list().unwrap();
    assert_eq!(nested_list[0].int_value().unwrap(), -500500i64);
}

#[test]
fn positive_decode_recursion() {
    let _ = Bencode::decode(RECURSION).unwrap();
}

#[test]
fn positive_decode_bytes_utf8() {
    let bencode = Bencode::decode(BYTES_UTF8).unwrap();

    assert_eq!(bencode.str().unwrap(), "valid_utf8_bytes");
}

#[test]
fn positive_decode_dict() {
    let bencode = Bencode::decode(DICTIONARY).unwrap();
    let dict = bencode.dict().unwrap();
    assert_eq!(dict.lookup("test_key".as_bytes()).unwrap().str().unwrap(), "test_value");

    let nested_dict = dict.lookup("test_dict".as_bytes()).unwrap().dict().unwrap();
    assert_eq!(nested_dict.lookup("nested_key".as_bytes()).unwrap().str().unwrap(), "nested_value");

    let nested_list = nested_dict.lookup("nested_list".as_bytes()).unwrap().list().unwrap();
    assert_eq!(nested_list[0].int_value().unwrap(), 500i64);
    assert_eq!(nested_list[1].int_value().unwrap(), -500i64);
    assert_eq!(nested_list[2].int_value().unwrap(), 0i64);
}

#[test]
fn positive_decode_list() {
    let bencode = Bencode::decode(LIST).unwrap();
    let list = bencode.list().unwrap();

    assert_eq!(list[0].str().unwrap(), "test_bytes");
    assert_eq!(list[1].int_value().unwrap(), 500i64);
    assert_eq!(list[2].int_value().unwrap(), 0i64);
    assert_eq!(list[3].int_value().unwrap(), -500i64);

    let nested_list = list[4].list().unwrap();
    assert_eq!(nested_list[0].str().unwrap(), "nested_bytes");

    let nested_dict = list[5].dict().unwrap();
    assert_eq!(nested_dict.lookup("test_key".as_bytes()).unwrap().str().unwrap(), "test_value");
}

#[test]
fn positive_decode_bytes() {
    let bytes = decode_bytes(BYTES, 0).unwrap().0;
    assert_eq!(bytes.len(), 5);
    assert_eq!(bytes[0] as char, 'Å');
    assert_eq!(bytes[1] as char, 'æ');
    assert_eq!(bytes[2] as char, '¾');
    assert_eq!(bytes[3] as char, 'æ');
    assert_eq!(bytes[4] as char, 'ò');
}

#[test]
fn positive_decode_bytes_zero_len() {
    let bytes = decode_bytes(BYTES_ZERO_LEN, 0).unwrap().0;
    assert_eq!(bytes.len(), 0);
}

#[test]
fn positive_decode_int() {
    let int_value = decode_int(INT, 1, BEN_END).unwrap().0;
    assert_eq!(int_value, 500i64);
}

#[test]
fn positive_decode_int_negative() {
    let int_value = decode_int(INT_NEGATIVE, 1, BEN_END).unwrap().0;
    assert_eq!(int_value, -500i64);
}

#[test]
fn positive_decode_int_zero() {
    let int_value = decode_int(INT_ZERO, 1, BEN_END).unwrap().0;
    assert_eq!(int_value, 0i64);
}

#[test]
#[should_panic]
fn negative_decode_bytes_neg_len() {
    Bencode::decode(BYTES_NEG_LEN).unwrap();
}

#[test]
#[should_panic]
fn negative_decode_bytes_extra() {
    Bencode::decode(BYTES_EXTRA).unwrap();
}

#[test]
#[should_panic]
fn negative_decode_bytes_not_utf8() {
    let bencode = Bencode::decode(BYTES_NOT_UTF8).unwrap();

    bencode.str().unwrap();
}

#[test]
#[should_panic]
fn negative_decode_int_nan() {
    decode_int(INT_NAN, 1, BEN_END).unwrap().0;
}

#[test]
#[should_panic]
fn negative_decode_int_leading_zero() {
    decode_int(INT_LEADING_ZERO, 1, BEN_END).unwrap().0;
}

#[test]
#[should_panic]
fn negative_decode_int_double_zero() {
    decode_int(INT_DOUBLE_ZERO, 1, BEN_END).unwrap().0;
}

#[test]
#[should_panic]
fn negative_decode_int_negative_zero() {
    decode_int(INT_NEGATIVE_ZERO, 1, BEN_END).unwrap().0;
}

#[test]
#[should_panic]
fn negative_decode_int_double_negative() {
    decode_int(INT_DOUBLE_NEGATIVE, 1, BEN_END).unwrap().0;
}

#[test]
#[should_panic]
fn negative_decode_dict_unordered_keys() {
    Bencode::decode(DICT_UNORDERED_KEYS).unwrap();
}

#[test]
#[should_panic]
fn negative_decode_dict_dup_keys_same_data() {
    Bencode::decode(DICT_DUP_KEYS_SAME_DATA).unwrap();
}

#[test]
#[should_panic]
fn negative_decode_dict_dup_keys_diff_data() {
    Bencode::decode(DICT_DUP_KEYS_DIFF_DATA).unwrap();
}

#[test]
fn positive_int_encode() {
    let bencode_int = BencodeMut::new_int(-560);

    let int_bytes = b"i-560e";
    assert_eq!(&int_bytes[..], &bencode_int.encode()[..]);
}

#[test]
fn positive_bytes_encode() {
    let bencode_bytes = BencodeMut::new_bytes((&b"asdasd"[..]).into());

    let bytes_bytes = b"6:asdasd";
    assert_eq!(&bytes_bytes[..], &bencode_bytes.encode()[..]);
}

#[test]
fn positive_empty_list_encode() {
    let bencode_list = BencodeMut::new_list();

    let list_bytes = b"le";
    assert_eq!(&list_bytes[..], &bencode_list.encode()[..]);
}

#[test]
fn positive_nonempty_list_encode() {
    let mut bencode_list = BencodeMut::new_list();

    {
        let list_mut = bencode_list.list_mut().unwrap();
        list_mut.push(BencodeMut::new_int(56));
    }

    let list_bytes = b"li56ee";
    assert_eq!(&list_bytes[..], &bencode_list.encode()[..]);
}

#[test]
fn positive_empty_dict_encode() {
    let bencode_dict = BencodeMut::new_dict();

    let dict_bytes = b"de";
    assert_eq!(&dict_bytes[..], &bencode_dict.encode()[..]);
}

#[test]
fn positive_nonempty_dict_encode() {
    let mut bencode_dict = BencodeMut::new_dict();

    {
        let dict_mut = bencode_dict.dict_mut().unwrap();
        dict_mut.insert((&b"asd"[..]).into(), BencodeMut::new_bytes((&b"asdasd"[..]).into()));
    }

    let dict_bytes = b"d3:asd6:asdasde";
    assert_eq!(&dict_bytes[..], &bencode_dict.encode()[..]);
}

#[test]
fn decode_options_default_values() {
    let opts = BDecodeOpt::default();
    assert_eq!(opts.max_recursion(), 50);
    assert!(!opts.check_key_sort());
    assert!(opts.enforce_full_decode());
}

#[test]
fn decode_gives_back_what_was_encoded() {
    let mut inner = BencodeMut::new_list();
    {
        let list_mut = inner.list_mut().unwrap();
        list_mut.push(BencodeMut::new_int(-42));
        list_mut.push(BencodeMut::new_bytes(Vec::new()));
        list_mut.push(BencodeMut::new_dict());
    }
    let mut value = BencodeMut::new_dict();
    {
        let dict_mut = value.dict_mut().unwrap();
        dict_mut.insert((&b"zeta"[..]).into(), BencodeMut::new_int(i64::MAX));
        dict_mut.insert((&b"alpha"[..]).into(), inner);
        dict_mut.insert((&b"mid"[..]).into(), BencodeMut::new_bytes((&b"xyz"[..]).into()));
    }
    let bytes = value.encode();
    assert_eq!(&bytes[..], &b"d5:alphali-42e0:dee3:mid3:xyz4:zetai9223372036854775807ee"[..]);

    let decoded = Bencode::decode(&bytes[..]).unwrap();
    assert_eq!(decoded.encode(), bytes);
    let dict = decoded.dict().unwrap();
    assert_eq!(dict.lookup(b"zeta").unwrap().int_value(), Some(i64::MAX));
    let list = dict.lookup(b"alpha").unwrap().list().unwrap();
    assert_eq!(list.len(), 3);
    assert_eq!(list[0].int_value(), Some(-42));
    assert_eq!(list[1].bytes(), Some(&b""[..]));
    assert_eq!(dict.lookup(b"mid").unwrap().bytes(), Some(&b"xyz"[..]));
}

#[test]
fn a_plus_sign_is_read_but_not_written_back() {
    let decoded = Bencode::decode(b"i+5e").unwrap();
    assert_eq!(decoded.int_value(), Some(5));
    assert_eq!(&decoded.encode()[..], &b"i5e"[..]);
}

#[test]
fn dictionary_reads_back_what_was_put() {
    let mut value = BencodeMut::new_dict();
    let dict_mut = value.dict_mut().unwrap();
    assert!(dict_mut.insert((&b"b"[..]).into(), BencodeMut::new_int(1)).is_none());
    assert!(dict_mut.insert((&b"a"[..]).into(), BencodeMut::new_int(2)).is_none());
    let replaced = dict_mut.insert((&b"b"[..]).into(), BencodeMut::new_int(3)).unwrap();
    assert_eq!(replaced.int_value(), Some(1));
    assert_eq!(dict_mut.lookup(b"b").unwrap().int_value(), Some(3));
    assert_eq!(dict_mut.lookup(b"a").unwrap().int_value(), Some(2));
    assert!(dict_mut.lookup(b"c").is_none());
    assert_eq!(&value.encode()[..], &b"d1:ai2e1:bi3ee"[..]);
}

#[test]
fn decoded_value_encodes_to_input_read_the_same_way() {
    let input = b"d1:ai-0e1:bli+7eee";
    assert!(Bencode::decode(&input[..]).is_err());
    let input = b"d1:ali+7e3:abce1:bi12ee";
    let decoded = Bencode::decode(&input[..]).unwrap();
    let encoded = decoded.encode();
    assert_eq!(&encoded[..], &b"d1:ali7e3:abce1:bi12ee"[..]);
    let again = Bencode::decode(&encoded[..]).unwrap();
    assert_eq!(again.encode(), encoded);
}

#[test]
fn list_access_on_vectors() {
    let mut list: Vec<u8> = vec![1, 2, 3];
    assert_eq!(BListAccess::get(&list, 1), Some(&2));
    assert_eq!(BListAccess::get(&list, 3), None);
    *BListAccess::get_mut(&mut list, 0).unwrap() = 7;
    assert_eq!(BListAccess::remove(&mut list, 1), Some(2));
    assert_eq!(BListAccess::remove(&mut list, 5), None);
    BListAccess::insert(&mut list, 0, 9);
    BListAccess::push(&mut list, 4);
    assert_eq!(BListAccess::len(&list), 4);
    assert_eq!(list, vec![9, 7, 3, 4]);

    let mut iter = BListIter::new(&list[..]);
    assert_eq!(iter.next(), Some(&9));
    assert_eq!(iter.next(), Some(&7));
    assert_eq!(iter.next(), Some(&3));
    assert_eq!(iter.next(), Some(&4));
    assert_eq!(iter.next(), None);
}

#[test]
fn values_by_kind() {
    let mut value = Bencode::decode(b"li1e3:abce").unwrap();
    match value.kind() {
        BencodeRefKind::List(items) => {
            assert_eq!(items.len(), 2);
            match items[1].kind() {
                BencodeRefKind::Bytes(b) => assert_eq!(b, b"abc"),
                _ => panic!("expected bytes"),
            }
        },
        _ => panic!("expected a list"),
    }
    match value.kind_mut() {
        BencodeMutKind::List(items) => items.push(BencodeMut::new_int(2)),
        _ => panic!("expected a list"),
    }
    assert_eq!(&value.encode()[..], &b"li1e3:abci2ee"[..]);

    let decoded = BencodeRef::decode(b"d1:ai5ee", BDecodeOpt::default()).unwrap();
    match decoded.kind() {
        BencodeRefKind::Dict(d) => match d.lookup(b"a").unwrap().kind() {
            BencodeRefKind::Int(n) => assert_eq!(n, 5),
            _ => panic!("expected an integer"),
        },
        _ => panic!("expected a dictionary"),
    }
}

#[test]
fn dictionary_lists_entries_in_key_order() {
    let decoded = Bencode::decode(b"d1:ai1e1:bi2ee").unwrap();
    let list = decoded.dict().unwrap().to_list();
    assert_eq!(list.len(), 2);
    assert_eq!(list[0].0, b"a");
    assert_eq!(list[0].1.int_value(), Some(1));
    assert_eq!(list[1].0, b"b");
    assert_eq!(list[1].1.int_value(), Some(2));
}

#[test]
fn decoded_canonical_input_encodes_back() {
    for input in [GENERAL, DICTIONARY, LIST, BYTES, BYTES_ZERO_LEN, INT, INT_NEGATIVE, INT_ZERO] {
        assert_eq!(Bencode::decode(input).unwrap().encode(), input.to_vec());
    }
}

#[test]
fn plus_signed_integer_is_not_written_back() {
    // Decoding takes a `+` sign, which encoding never writes.
    assert_eq!(Bencode::decode(b"i+5e").unwrap().encode(), b"i5e".to_vec());
}

#[test]
fn decoding_reads_only_its_own_bytes() {
    let whole = Bencode::decode(b"l4:spami7ee").unwrap();
    let inner = Bencode::decode(b"4:spam").unwrap();
    assert_eq!(whole.list().unwrap()[0].bytes().unwrap(), inner.bytes().unwrap());
}

#[test]
fn built_value_decodes_back() {
    let mut dict = Bencode::new_dict();
    {
        let d = dict.dict_mut().unwrap();
        d.insert(b"zeta".to_vec(), Bencode::new_int(-7));
        d.insert(b"alpha".to_vec(), Bencode::new_bytes(b"x".to_vec()));
    }
    let bytes = dict.encode();
    assert_eq!(bytes, b"d5:alpha1:x4:zetai-7ee".to_vec());
    let back = Bencode::decode(&bytes).unwrap();
    assert_eq!(back.encode(), bytes);
    assert_eq!(back.dict().unwrap().lookup(b"zeta").unwrap().int_value(), Some(-7));
}
