//! Headers, the ordered header list, and the codec that turns one chomped
//! header line into a structured name/value pair.
use vstd::prelude::*;
use vstd::string::StrSliceExecFns;
use vstd::string::StringSliceAdditionalSpecFns;
use vstd::utf8::*;

use crate::model::COLON;
use crate::model::FrameError;
use crate::model::HeaderV;
use crate::model::content_length_key;
use crate::model::content_length_of;
use crate::model::decode_header_bytes;
use crate::model::dec_val;
use crate::model::find_byte;
use crate::model::is_dec_digits;
use crate::model::lemma_dec_val_mono;
use crate::model::lemma_dec_val_take_succ;
use crate::model::lemma_find_byte;
use crate::model::parse_dec_u32;
use crate::pool::StringPool;
use crate::pool::utf8_from;

verus! {

/// One decoded header: a name and a value.
#[derive(Debug)]
pub struct Header {
    pub key: String,
    pub value: String,
}

impl View for Header {
    type V = HeaderV;

    open spec fn view(&self) -> HeaderV {
        HeaderV { key: encode_utf8(self.key@), value: encode_utf8(self.value@) }
    }
}

/// The ordered header accumulator: insertion order kept, duplicates allowed.
#[derive(Debug)]
pub struct HeaderList {
    pub headers: Vec<Header>,
}

impl View for HeaderList {
    type V = Seq<HeaderV>;

    open spec fn view(&self) -> Seq<HeaderV> {
        Seq::new(self.headers@.len(), |i: int| self.headers@[i]@)
    }
}

/// True exactly when the byte views of `a` and `b` are equal.
fn bytes_vec_eq(a: &Vec<u8>, b: &Vec<u8>) -> (r: bool)
    ensures
        r == (a@ == b@),
{
    if a.len() != b.len() {
        return false;
    }
    let n = a.len();
    let mut i: usize = 0;
    while i < n
        invariant
            0 <= i <= n,
            n == a@.len() == b@.len(),
            forall|k: int| 0 <= k < i ==> a@[k] == b@[k],
        decreases n - i,
    {
        if a[i] != b[i] {
            return false;
        }
        i = i + 1;
    }
    proof {
        assert(a@ =~= b@);
    }
    true
}

/// True exactly when `key` is the content-length header name.
fn is_content_length_key(key: &String) -> (r: bool)
    ensures
        r == (encode_utf8(key@) == content_length_key()),
{
    let kb = key.as_str().as_bytes_vec();
    let lb = "content-length".as_bytes_vec();
    bytes_vec_eq(&kb, &lb)
}

/// The digits of `value` read as a `u32`, or nothing where `value` is not
/// such a number.
fn parse_content_length(value: &String) -> (r: Option<u32>)
    ensures
        r == parse_dec_u32(encode_utf8(value@)),
{
    let b = value.as_str().as_bytes_vec();
    proof {
        assert(b@ == encode_utf8(value@));
    }
    let n = b.len();
    if n == 0 {
        return None;
    }
    let mut acc: u64 = 0;
    let mut i: usize = 0;
    while i < n
        invariant
            0 <= i <= n,
            n == b@.len(),
            n > 0,
            b@ == encode_utf8(value@),
            acc <= u32::MAX,
            acc == dec_val(b@.take(i as int)),
            forall|k: int| 0 <= k < i ==> 48 <= #[trigger] b@[k] <= 57,
        decreases n - i,
    {
        let d = b[i];
        if d < 48 || d > 57 {
            proof {
                assert(b@[i as int] == d);
                assert(!is_dec_digits(b@));
            }
            return None;
        }
        proof {
            lemma_dec_val_take_succ(b@, i as int);
        }
        acc = acc * 10 + ((d - 48) as u64);
        if acc > 0xFFFF_FFFFu64 {
            proof {
                assert(acc == dec_val(b@.take(i as int + 1)));
                if is_dec_digits(b@) {
                    assert forall|k: int| 0 <= k < b@.len() implies #[trigger] b@[k] >= 48 by {}
                    lemma_dec_val_mono(b@, i as int + 1);
                    assert(dec_val(b@) > u32::MAX);
                }
                assert(parse_dec_u32(b@) is None);
            }
            return None;
        }
        i = i + 1;
    }
    proof {
        assert(b@.take(n as int) =~= b@);
    }
    Some(acc as u32)
}

impl HeaderList {
    /// A fresh, empty accumulator.
    pub fn new() -> (r: HeaderList)
        ensures
            r@ == Seq::<HeaderV>::empty(),
    {
        let r = HeaderList { headers: Vec::new() };
        proof {
            assert(r@ =~= Seq::<HeaderV>::empty());
        }
        r
    }

    /// Number of accumulated headers.
    pub fn len(&self) -> (n: usize)
        ensures
            n == self@.len(),
    {
        self.headers.len()
    }

    /// The header at position `i`.
    pub fn get(&self, i: usize) -> (h: &Header)
        requires
            i < self@.len(),
        ensures
            h@ == self@[i as int],
    {
        &self.headers[i]
    }

    /// Appends `h`, keeping insertion order.
    pub fn push(&mut self, h: Header)
        ensures
            final(self)@ == old(self)@.push(h@),
    {
        self.headers.push(h);
        proof {
            assert(self@ =~= old(self)@.push(h@));
        }
    }

    /// Removes and yields the last header, for draining the list.
    pub fn pop(&mut self) -> (r: Option<Header>)
        ensures
            old(self)@.len() == 0 ==> r is None && final(self)@ == old(self)@,
            old(self)@.len() > 0 ==> (r matches Some(h) && h@ == old(self)@.last()
                && final(self)@ == old(self)@.drop_last()),
    {
        let r = self.headers.pop();
        proof {
            if old(self)@.len() > 0 {
                assert(self@ =~= old(self)@.drop_last());
            } else {
                assert(self@ =~= old(self)@);
            }
        }
        r
    }

    /// The declared body length: the value of the first content-length
    /// header, where one exists and its value is a decimal number.
    pub fn get_content_length(&self) -> (r: Option<u32>)
        ensures
            r == content_length_of(self@),
    {
        let n = self.headers.len();
        proof {
            assert(self@.skip(0) =~= self@);
        }
        let mut i: usize = 0;
        while i < n
            invariant
                0 <= i <= n,
                n == self@.len(),
                content_length_of(self@) == content_length_of(self@.skip(i as int)),
            decreases n - i,
        {
            let h = &self.headers[i];
            proof {
                assert(self@.skip(i as int)[0] == self@[i as int]);
            }
            if is_content_length_key(&h.key) {
                return parse_content_length(&h.value);
            }
            proof {
                assert(self@.skip(i as int).skip(1) =~= self@.skip(i as int + 1));
            }
            i = i + 1;
        }
        proof {
            assert(self@.skip(n as int) =~= Seq::<HeaderV>::empty());
        }
        None
    }
}

/// Decodes chomped header lines, drawing string storage from its own pool.
pub struct HeaderCodec {
    string_pool: StringPool,
}

impl HeaderCodec {
    /// A codec whose pool keeps `size` strings warm and retains at most
    /// `max_size`.
    pub fn with_pool_size_and_max(size: usize, max_size: usize) -> HeaderCodec {
        HeaderCodec { string_pool: StringPool::with_size_and_max(size, max_size) }
    }

    /// Splits one chomped header line at its first `:` into a header.
    /// A line without `:` is a protocol violation, as is one whose name or
    /// value is not valid UTF-8.
    pub fn decode(&self, line: &Vec<u8>) -> (r: Result<Header, FrameError>)
        ensures
            match decode_header_bytes(line@) {
                Ok(hv) => r matches Ok(h) && h@ == hv,
                Err(e) => r matches Err(e2) && e2 == e,
            },
    {
        let idx = match find_byte_vec(line, COLON) {
            Some(i) => i,
            None => {
                return Err(FrameError::MalformedHeader);
            },
        };
        proof {
            lemma_find_byte(line@, COLON);
        }
        let n = line.len();
        let mut key_b: Vec<u8> = Vec::new();
        let mut k: usize = 0;
        while k < idx
            invariant
                0 <= k <= idx < n,
                n == line@.len(),
                key_b@ == line@.take(idx as int).take(k as int),
            decreases idx - k,
        {
            key_b.push(line[k]);
            proof {
                assert(line@.take(idx as int).take(k + 1 as int) =~= line@.take(idx as int).take(
                    k as int,
                ).push(line@[k as int]));
            }
            k = k + 1;
        }
        proof {
            assert(line@.take(idx as int).take(idx as int) =~= line@.take(idx as int));
        }
        let mut value_b: Vec<u8> = Vec::new();
        let mut v: usize = idx + 1;
        while v < n
            invariant
                idx + 1 <= v <= n,
                n == line@.len(),
                value_b@ == line@.skip(idx + 1).take(v - idx - 1),
            decreases n - v,
        {
            value_b.push(line[v]);
            proof {
                assert(line@.skip(idx + 1).take(v + 1 - idx - 1) =~= line@.skip(idx + 1).take(
                    v - idx - 1,
                ).push(line@[v as int]));
            }
            v = v + 1;
        }
        proof {
            assert(line@.skip(idx + 1).take(n - idx - 1) =~= line@.skip(idx + 1));
        }
        let ks = match utf8_from(&key_b) {
            Some(s) => s,
            None => {
                return Err(FrameError::InvalidUtf8);
            },
        };
        let key = self.string_pool.string_from(ks);
        let vs = match utf8_from(&value_b) {
            Some(s) => s,
            None => {
                return Err(FrameError::InvalidUtf8);
            },
        };
        let value = self.string_pool.string_from(vs);
        let h = Header { key, value };
        proof {
            assert(h@ =~= decode_header_bytes(line@).unwrap());
        }
        Ok(h)
    }

    /// Returns a consumed header's string storage to the codec's pool.
    pub fn recycle(&self, header: Header) {
        self.string_pool.attach(header.key);
        self.string_pool.attach(header.value);
    }
}

/// Position of the first occurrence of `b` in `v`, if any.
pub(crate) fn find_byte_vec(v: &Vec<u8>, b: u8) -> (r: Option<usize>)
    ensures
        match r {
            Some(i) => find_byte(v@, b) == Some(i as int),
            None => find_byte(v@, b) is None,
        },
{
    let n = v.len();
    let mut i: usize = 0;
    while i < n
        invariant
            0 <= i <= n,
            n == v@.len(),
            forall|k: int| 0 <= k < i ==> #[trigger] v@[k] != b,
        decreases n - i,
    {
        if v[i] == b {
            proof {
                lemma_find_byte(v@, b);
            }
            return Some(i);
        }
        i = i + 1;
    }
    proof {
        lemma_find_byte(v@, b);
    }
    None
}

} // verus!
