use vstd::prelude::*;
use vstd::string::{StringExecFns, StringSliceAdditionalSpecFns};
use vstd::utf8::{decode_utf8, encode_utf8, valid_utf8};

use crate::bencode::convert::{convert_int, convert_str, entry_value, integer_name, list_name, lookup_and_convert_list, utf8_name, BencodeConvert};
use crate::bencode::dict::BDict;
use crate::bencode::encode::{lemma_encode_entries_push, lemma_encode_items_push, push_bytes, push_int_text};
use crate::bencode::error::{BencodeConvertError, ConvertFailure};
use crate::bencode::reference::BencodeRef;
use crate::bencode::spec::{encode_value, BValue, RefView};
use crate::dht::error::{DhtError, DhtFailure};
use crate::dht::message::{error_type_key, error_type_key_bytes, message_type_key, message_type_key_bytes, transaction_id_key, transaction_id_key_bytes};
use crate::dht::text::{decimal_chars, text_with_number};

verus! {

/// Number of a generic error.
pub const GENERIC_ERROR_CODE: u8 = 201;
/// Number of a server error.
pub const SERVER_ERROR_CODE: u8 = 202;
/// Number of a protocol error.
pub const PROTOCOL_ERROR_CODE: u8 = 203;
/// Number of an unknown method error.
pub const METHOD_UNKNOWN_CODE: u8 = 204;

/// The kind of a KRPC error.
#[derive(Copy, Clone, PartialEq, Eq, Structural, Hash, Debug)]
pub enum ErrorCode {
    /// A generic error (201).
    GenericError,
    /// A server error (202).
    ServerError,
    /// A malformed packet, invalid arguments or a bad token (203).
    ProtocolError,
    /// An unknown method (204).
    MethodUnknown,
}

/// The number of an error kind.
pub open spec fn code_number(c: ErrorCode) -> u8 {
    match c {
        ErrorCode::GenericError => 201,
        ErrorCode::ServerError => 202,
        ErrorCode::ProtocolError => 203,
        ErrorCode::MethodUnknown => 204,
    }
}

/// The text of an error for an unknown error number.
pub open spec fn invalid_code_text(code: u8) -> Seq<char> {
    "Error Message Invalid Error Code "@ + decimal_chars(code as nat)
}

/// The text of an error for error arguments that are not two.
pub open spec fn invalid_args_text(n: nat) -> Seq<char> {
    "Error Message Invalid Number Of Error Args: "@ + decimal_chars(n)
}

impl ErrorCode {
    /// The error kind with number `code`; an invalid response error for any other number.
    pub fn new(code: u8) -> (r: Result<ErrorCode, DhtError>)
        ensures
            r is Ok <==> 201 <= code <= 204,
            r matches Ok(c) ==> code_number(c) == code,
            r matches Err(e) ==> e@ == DhtFailure::InvalidResponse(invalid_code_text(code)),
    {
        if code == GENERIC_ERROR_CODE {
            Ok(ErrorCode::GenericError)
        } else if code == SERVER_ERROR_CODE {
            Ok(ErrorCode::ServerError)
        } else if code == PROTOCOL_ERROR_CODE {
            Ok(ErrorCode::ProtocolError)
        } else if code == METHOD_UNKNOWN_CODE {
            Ok(ErrorCode::MethodUnknown)
        } else {
            Err(DhtError::InvalidResponse { details: text_with_number("Error Message Invalid Error Code ", code as u64) })
        }
    }
}

/// Distinct error kinds have distinct numbers, so that reading the number of a kind gives the
/// kind back.
pub proof fn lemma_code_number_injective(a: ErrorCode, b: ErrorCode)
    ensures
        code_number(a) == code_number(b) ==> a == b,
{
}

impl From<ErrorCode> for u8 {
    fn from(c: ErrorCode) -> (r: u8) {
        match c {
            ErrorCode::GenericError => GENERIC_ERROR_CODE,
            ErrorCode::ServerError => SERVER_ERROR_CODE,
            ErrorCode::ProtocolError => PROTOCOL_ERROR_CODE,
            ErrorCode::MethodUnknown => METHOD_UNKNOWN_CODE,
        }
    }
}

impl vstd::std_specs::convert::FromSpecImpl<ErrorCode> for u8 {
    open spec fn obeys_from_spec() -> bool {
        true
    }

    open spec fn from_spec(c: ErrorCode) -> u8 {
        code_number(c)
    }
}

/// Model of an error message.
pub struct ErrorMessageView {
    /// Transaction id of the request it answers.
    pub trans_id: Seq<u8>,
    /// Kind of the error.
    pub code: ErrorCode,
    /// Text of the error.
    pub message: Seq<char>,
}

/// The bencode value of an error message.
pub open spec fn error_message_value(m: ErrorMessageView) -> BValue {
    BValue::Dict(
        seq![
            (error_type_key(), BValue::List(seq![BValue::Int(code_number(m.code) as int), BValue::Bytes(encode_utf8(m.message))])),
            (transaction_id_key(), BValue::Bytes(m.trans_id)),
            (message_type_key(), BValue::Bytes(error_type_key())),
        ],
    )
}

/// The key of the first error argument, `e[0]`.
pub open spec fn first_arg_key() -> Seq<u8> {
    seq![101u8, 91u8, 48u8, 93u8]
}

/// The key of the second error argument, `e[1]`.
pub open spec fn second_arg_key() -> Seq<u8> {
    seq![101u8, 91u8, 49u8, 93u8]
}

/// Reading an error message from the entries of its dictionary, for transaction id
/// `trans_id`: its arguments must be a list of an integer (whose low byte is the error
/// number) and a text.
pub open spec fn error_from_parts(entries: Seq<(Seq<u8>, BencodeRef)>, trans_id: Seq<u8>) -> Result<ErrorMessageView, DhtFailure> {
    match entry_value(entries, error_type_key()) {
        None => Err(DhtFailure::Bencode(ConvertFailure::MissingKey(error_type_key()))),
        Some(RefView::List(items, _)) => if items.len() != 2 {
            Err(DhtFailure::InvalidResponse(invalid_args_text(items.len())))
        } else {
            match items[0] {
                RefView::Int(c, _) => match items[1] {
                    RefView::Bytes(b, _) => if valid_utf8(b) {
                        let code = (c as i64) as u8;
                        if 201 <= code <= 204 {
                            Ok(
                                ErrorMessageView {
                                    trans_id,
                                    code: if code == 201 {
                                        ErrorCode::GenericError
                                    } else if code == 202 {
                                        ErrorCode::ServerError
                                    } else if code == 203 {
                                        ErrorCode::ProtocolError
                                    } else {
                                        ErrorCode::MethodUnknown
                                    },
                                    message: decode_utf8(b),
                                },
                            )
                        } else {
                            Err(DhtFailure::InvalidResponse(invalid_code_text(code)))
                        }
                    } else {
                        Err(DhtFailure::Bencode(ConvertFailure::WrongType(second_arg_key(), utf8_name())))
                    },
                    _ => Err(DhtFailure::Bencode(ConvertFailure::WrongType(second_arg_key(), utf8_name()))),
                },
                _ => Err(DhtFailure::Bencode(ConvertFailure::WrongType(first_arg_key(), integer_name()))),
            }
        },
        Some(_) => Err(DhtFailure::Bencode(ConvertFailure::WrongType(error_type_key(), list_name()))),
    }
}

/// Reads the arguments of error messages; conversion errors become DHT errors as they are.
#[derive(Copy, Clone, PartialEq, Eq, Hash, Debug)]
pub struct ErrorValidate;

impl BencodeConvert for ErrorValidate {
    type Error = DhtError;

    fn handle_error(&self, error: BencodeConvertError) -> (r: DhtError)
        ensures
            r@ == DhtFailure::Bencode(error@),
    {
        DhtError::Bencode(error)
    }
}

impl ErrorValidate {
    /// The error number (the low byte of the first argument) and the text (the second) of
    /// the two error arguments `args`.
    pub fn extract_error_args<'a>(&self, args: &[BencodeRef<'a>]) -> (r: Result<(u8, &'a str), DhtError>)
        ensures
            args@.len() != 2 ==> (r matches Err(e) && e@ == DhtFailure::InvalidResponse(invalid_args_text(args@.len()))),
            args@.len() == 2 ==> match args@[0]@ {
                RefView::Int(c, _) => match args@[1]@ {
                    RefView::Bytes(b, _) => if valid_utf8(b) {
                        r matches Ok((code, s)) && code == (c as i64) as u8 && s.spec_bytes() == b
                    } else {
                        r matches Err(e) && e@ == DhtFailure::Bencode(ConvertFailure::WrongType(second_arg_key(), utf8_name()))
                    },
                    _ => r matches Err(e) && e@ == DhtFailure::Bencode(ConvertFailure::WrongType(second_arg_key(), utf8_name())),
                },
                _ => r matches Err(e) && e@ == DhtFailure::Bencode(ConvertFailure::WrongType(first_arg_key(), integer_name())),
            },
    {
        if args.len() != 2 {
            return Err(DhtError::InvalidResponse {
                details: text_with_number("Error Message Invalid Number Of Error Args: ", args.len() as u64),
            });
        }
        let first_key = vec![101u8, 91u8, 48u8, 93u8];
        let second_key = vec![101u8, 91u8, 49u8, 93u8];
        assert(first_key@ =~= first_arg_key());
        assert(second_key@ =~= second_arg_key());
        let code = match convert_int(&args[0], first_key.as_slice()) {
            Ok(c) => c,
            Err(e) => {
                return Err(self.handle_error(e));
            },
        };
        let message = match convert_str(&args[1], second_key.as_slice()) {
            Ok(m) => m,
            Err(e) => {
                return Err(self.handle_error(e));
            },
        };
        Ok((code as u8, message))
    }
}

/// A KRPC error message: the transaction id of the request it answers, its kind and text.
#[derive(Clone, Debug)]
pub struct ErrorMessage {
    trans_id: Vec<u8>,
    code: ErrorCode,
    message: String,
}

impl View for ErrorMessage {
    type V = ErrorMessageView;

    closed spec fn view(&self) -> ErrorMessageView {
        ErrorMessageView { trans_id: self.trans_id@, code: self.code, message: self.message@ }
    }
}

impl ErrorMessage {
    /// An error message answering transaction `trans_id`.
    pub fn new(trans_id: Vec<u8>, code: ErrorCode, message: String) -> (m: ErrorMessage)
        ensures
            m@ == (ErrorMessageView { trans_id: trans_id@, code, message: message@ }),
    {
        ErrorMessage { trans_id, code, message }
    }

    /// Reads an error message from its dictionary `root`, for transaction id `trans_id`
    /// (see `error_from_parts`).
    pub fn from_parts(root: &BDict<BencodeRef>, trans_id: &[u8]) -> (r: Result<ErrorMessage, DhtError>)
        ensures
            match error_from_parts(root.kv(), trans_id@) {
                Ok(v) => r matches Ok(m) && m@ == v,
                Err(f) => r matches Err(e) && e@ == f,
            },
    {
        let validate = ErrorValidate;
        let key = error_type_key_bytes();
        let error_args = match lookup_and_convert_list(root, key.as_slice()) {
            Ok(a) => a,
            Err(e) => {
                return Err(validate.handle_error(e));
            },
        };
        let (code, message) = validate.extract_error_args(error_args)?;
        let error_code = ErrorCode::new(code)?;
        proof {
            vstd::utf8::encode_utf8_decode_utf8(message@);
        }
        Ok(ErrorMessage { trans_id: vstd::slice::slice_to_vec(trans_id), code: error_code, message: message.to_owned() })
    }

    /// The transaction id of the request this answers.
    pub fn transaction_id(&self) -> (r: &[u8])
        ensures
            r@ == self@.trans_id,
    {
        self.trans_id.as_slice()
    }

    /// The kind of the error.
    pub fn error_code(&self) -> (r: ErrorCode)
        ensures
            r == self@.code,
    {
        self.code
    }

    /// The text of the error.
    pub fn error_message(&self) -> (r: &str)
        ensures
            r@ == self@.message,
    {
        self.message.as_str()
    }

    /// The bencode of the message (see `error_message_value`).
    pub fn encode(&self) -> (out: Vec<u8>)
        ensures
            out@ == encode_value(error_message_value(self@)),
    {
        let mut out: Vec<u8> = Vec::new();
        out.push(100u8);
        let e = error_type_key_bytes();
        let t = transaction_id_key_bytes();
        let y = message_type_key_bytes();
        let text = self.message.as_str().as_bytes();
        let code: u8 = u8::from(self.code);
        let ghost args = seq![BValue::Int(code_number(self.code) as int), BValue::Bytes(encode_utf8(self.message@))];
        push_bytes(e.as_slice(), &mut out);
        out.push(108u8);
        out.push(105u8);
        push_int_text(code as i64, &mut out);
        out.push(101u8);
        push_bytes(text, &mut out);
        out.push(101u8);
        push_bytes(t.as_slice(), &mut out);
        push_bytes(self.trans_id.as_slice(), &mut out);
        push_bytes(y.as_slice(), &mut out);
        push_bytes(e.as_slice(), &mut out);
        out.push(101u8);
        proof {
            let ghost items = seq![BValue::Int(code_number(self.code) as int)];
            lemma_encode_items_push(Seq::empty(), BValue::Int(code_number(self.code) as int));
            lemma_encode_items_push(items, BValue::Bytes(encode_utf8(self.message@)));
            assert(Seq::<BValue>::empty().push(BValue::Int(code_number(self.code) as int)) =~= items);
            assert(items.push(BValue::Bytes(encode_utf8(self.message@))) =~= args);
            let ghost e0 = (error_type_key(), BValue::List(args));
            let ghost e1 = (transaction_id_key(), BValue::Bytes(self.trans_id@));
            let ghost e2 = (message_type_key(), BValue::Bytes(error_type_key()));
            lemma_encode_entries_push(Seq::empty(), e0.0, e0.1);
            lemma_encode_entries_push(seq![e0], e1.0, e1.1);
            lemma_encode_entries_push(seq![e0, e1], e2.0, e2.1);
            assert(Seq::<(Seq<u8>, BValue)>::empty().push(e0) =~= seq![e0]);
            assert(seq![e0].push(e1) =~= seq![e0, e1]);
            assert(seq![e0, e1].push(e2) =~= seq![e0, e1, e2]);
            assert(out@ =~= encode_value(error_message_value(self@)));
        }
        out
    }
}

} // verus!
