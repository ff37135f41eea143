//! Service descriptions and the reader of service files.

use vstd::prelude::*;
use crate::text::{
    byte_char, first_index, find_char, latin1, latin1_seq, lemma_first_index, split_chars, split_on,
    str_eq, string_from_chars, strings_view,
};

verus! {

/// The services that have been started.
pub struct ServiceManager {
    running: Vec<String>,
}

impl View for ServiceManager {
    type V = Seq<Seq<char>>;

    closed spec fn view(&self) -> Seq<Seq<char>> {
        strings_view(self.running@)
    }
}

impl ServiceManager {
    /// A manager with no service running.
    pub fn init() -> (m: Self)
        ensures
            m@ == Seq::<Seq<char>>::empty(),
    {
        let m = ServiceManager { running: Vec::new() };
        assert(m@ =~= Seq::<Seq<char>>::empty());
        m
    }
}

/// A service: its label, its program, the services it requires, and the name of the
/// file it was read from.
#[derive(Debug)]
pub struct Service {
    pub name: String,
    pub program: Vec<String>,
    pub requires: Vec<String>,
    pub fname: String,
}

/// What a service is, as text.
pub struct ServiceModel {
    pub name: Seq<char>,
    pub program: Seq<Seq<char>>,
    pub requires: Seq<Seq<char>>,
    pub fname: Seq<char>,
}

impl View for Service {
    type V = ServiceModel;

    open spec fn view(&self) -> ServiceModel {
        ServiceModel {
            name: self.name@,
            program: strings_view(self.program@),
            requires: strings_view(self.requires@),
            fname: self.fname@,
        }
    }
}

impl Default for Service {
    /// A service with empty fields.
    fn default() -> (s: Self)
        ensures
            s@ == empty_service(),
    {
        let s = Service {
            name: String::new(),
            program: Vec::new(),
            requires: Vec::new(),
            fname: String::new(),
        };
        assert(s@.program =~= Seq::<Seq<char>>::empty());
        assert(s@.requires =~= Seq::<Seq<char>>::empty());
        s
    }
}

pub open spec fn empty_service() -> ServiceModel {
    ServiceModel {
        name: Seq::empty(),
        program: Seq::empty(),
        requires: Seq::empty(),
        fname: Seq::empty(),
    }
}

/// The reader of service files after some prefix of the input: whether a quote is
/// open, where the current section name ends in the buffer, the buffer, and the
/// `(key, value)` pairs found so far.
pub struct OpenState {
    pub quote_odd: bool,
    pub offset: int,
    pub buffer: Seq<char>,
    pub found: Seq<(Seq<char>, Seq<char>)>,
}

/// The characters that are dropped outside quotes.
pub open spec fn is_blank(c: char) -> bool {
    c == '\n' || c == '\r' || c == '\t' || c == ' ' || c == '[' || c == ']'
}

pub open spec fn open_start() -> OpenState {
    OpenState { quote_odd: false, offset: 0, buffer: Seq::empty(), found: Seq::empty() }
}

/// A line break outside quotes: a buffer with `=` yields the text before the first `=`
/// as the key and the rest as the value, and keeps only the section name; a buffer
/// without `=` is a section name, which replaces the previous one and gets a dot.
pub open spec fn open_line(st: OpenState) -> OpenState {
    match first_index(st.buffer, '=') {
        Some(j) => OpenState {
            found: st.found.push((st.buffer.take(j), st.buffer.skip(j + 1))),
            buffer: st.buffer.take(st.offset),
            ..st
        },
        None => if st.buffer.len() > 0 {
            let nb = if st.offset != st.buffer.len() {
                st.buffer.skip(st.offset).push('.')
            } else {
                st.buffer
            };
            OpenState { buffer: nb, offset: nb.len() as int, ..st }
        } else {
            st
        },
    }
}

/// What reading one byte does to the reader of service files.
pub open spec fn open_byte(st: OpenState, b: u8) -> OpenState {
    let c = latin1(b);
    if c == '\'' {
        OpenState { quote_odd: !st.quote_odd, ..st }
    } else {
        let buffer = if st.quote_odd || c == ',' || !is_blank(c) {
            st.buffer.push(
                if !st.quote_odd && c == ',' {
                    '\''
                } else {
                    c
                },
            )
        } else {
            st.buffer
        };
        let st2 = OpenState { buffer, ..st };
        if st.quote_odd || c != '\n' {
            st2
        } else {
            open_line(st2)
        }
    }
}

/// The reader of service files after the whole of `data`.
pub open spec fn open_scan(data: Seq<u8>) -> OpenState
    decreases data.len(),
{
    if data.len() == 0 {
        open_start()
    } else {
        open_byte(open_scan(data.drop_last()), data.last())
    }
}

/// The `(key, value)` pairs of a service file, in the order of its lines.
pub open spec fn service_entries(data: Seq<u8>) -> Seq<(Seq<char>, Seq<char>)> {
    open_scan(data).found
}

/// What one `(key, value)` pair does to a service: `service.Label` sets its name, and
/// `service.Requires` sets its requirements, split at each quote.
pub open spec fn apply_entry(s: ServiceModel, e: (Seq<char>, Seq<char>)) -> ServiceModel {
    if e.0 == "service.Label"@ {
        ServiceModel { name: e.1, ..s }
    } else if e.0 == "service.Requires"@ {
        ServiceModel { requires: split_on(e.1, '\''), ..s }
    } else {
        s
    }
}

/// The service that a list of pairs describes, starting from `s`.
pub open spec fn apply_entries(s: ServiceModel, es: Seq<(Seq<char>, Seq<char>)>) -> ServiceModel
    decreases es.len(),
{
    if es.len() == 0 {
        s
    } else {
        apply_entry(apply_entries(s, es.drop_last()), es.last())
    }
}

/// The service read from the file `fname` whose contents are `data`.
pub open spec fn service_from(fname: Seq<char>, data: Seq<u8>) -> ServiceModel {
    apply_entries(ServiceModel { fname, ..empty_service() }, service_entries(data))
}

pub open spec fn pairs_view(v: Seq<(String, String)>) -> Seq<(Seq<char>, Seq<char>)> {
    v.map_values(|p: (String, String)| (p.0@, p.1@))
}

impl Service {
    /// The service described by the file `fname` whose contents are `data`.
    pub fn new(fname: &str, data: &[u8]) -> (s: Service)
        ensures
            s@ == service_from(fname@, data@),
    {
        let mut s = Service::default();
        s.fname = fname.to_owned();
        let entries = Self::open(data);
        let ghost start = ServiceModel { fname: fname@, ..empty_service() };
        assert(s@ == start);
        let mut i: usize = 0;
        while i < entries.len()
            invariant
                i <= entries@.len(),
                pairs_view(entries@) == service_entries(data@),
                s@ == apply_entries(start, pairs_view(entries@).subrange(0, i as int)),
            decreases entries@.len() - i,
        {
            let ghost before = s@;
            let ghost e = pairs_view(entries@)[i as int];
            assert(pairs_view(entries@).subrange(0, i + 1).drop_last() =~= pairs_view(
                entries@,
            ).subrange(0, i as int));
            let key = entries[i].0.as_str();
            let value = entries[i].1.as_str();
            if str_eq(key, "service.Label") {
                s.name = value.to_owned();
            } else if str_eq(key, "service.Requires") {
                let cs = chars_of(value);
                s.requires = split_chars(cs.as_slice(), '\'');
            }
            assert(s@ == apply_entry(before, e));
            i = i + 1;
        }
        assert(pairs_view(entries@).subrange(0, entries@.len() as int) =~= pairs_view(entries@));
        s
    }

    /// The `(key, value)` pairs of a service file, in the order of its lines.
    ///
    /// Outside quotes, blanks, tabs, `\r` and brackets are dropped and a comma becomes a
    /// quote; quotes themselves are dropped, and quoted text is taken as it stands. At a
    /// line break outside quotes, a buffer holding `=` gives the pair split at its first
    /// `=`, its key prefixed by the section name; a buffer without `=` becomes the
    /// section name. A text that does not end in a line break loses its last line.
    pub fn open(data: &[u8]) -> (r: Vec<(String, String)>)
        ensures
            pairs_view(r@) == service_entries(data@),
    {
        let mut found: Vec<(String, String)> = Vec::new();
        let mut quote_odd = false;
        let mut offset: usize = 0;
        let mut buffer: Vec<char> = Vec::new();
        let mut i: usize = 0;
        while i < data.len()
            invariant
                i <= data.len(),
                offset <= buffer@.len() <= i,
                ({
                    let st = open_scan(data@.subrange(0, i as int));
                    &&& st.quote_odd == quote_odd
                    &&& st.offset == offset as int
                    &&& st.buffer == buffer@
                    &&& st.found == pairs_view(found@)
                }),
            decreases data.len() - i,
        {
            assert(data@.subrange(0, i + 1).drop_last() =~= data@.subrange(0, i as int));
            let ghost st = open_scan(data@.subrange(0, i as int));
            let c = byte_char(data[i]);
            if c == '\'' {
                quote_odd = !quote_odd;
            } else {
                if quote_odd || c == ',' || !is_blank_char(c) {
                    if !quote_odd && c == ',' {
                        buffer.push('\'');
                    } else {
                        buffer.push(c);
                    }
                }
                if !quote_odd && c == '\n' {
                    let ghost st2 = OpenState { buffer: buffer@, ..st };
                    match find_char(buffer.as_slice(), '=') {
                        Some(j) => {
                            proof {
                                lemma_first_index(buffer@, '=');
                            }
                            let key = string_from_chars(buffer.as_slice(), 0, j);
                            let value = string_from_chars(buffer.as_slice(), j + 1, buffer.len());
                            let ghost old_found = found@;
                            found.push((key, value));
                            assert(pairs_view(found@) =~= pairs_view(old_found).push(
                                (key@, value@),
                            ));
                            assert(buffer@.take(j as int) =~= buffer@.subrange(0, j as int));
                            assert(buffer@.skip(j + 1) =~= buffer@.subrange(
                                j + 1,
                                buffer@.len() as int,
                            ));
                            buffer.truncate(offset);
                            assert(buffer@ =~= st2.buffer.take(offset as int));
                        },
                        None => {
                            if buffer.len() > 0 {
                                if offset != buffer.len() {
                                    let tail = buffer.split_off(offset);
                                    buffer = tail;
                                    buffer.push('.');
                                    assert(buffer@ =~= st2.buffer.skip(offset as int).push('.'));
                                }
                                offset = buffer.len();
                            }
                        },
                    }
                }
            }
            i = i + 1;
        }
        assert(data@.subrange(0, data@.len() as int) =~= data@);
        found
    }
}

/// Whether `c` is dropped outside quotes.
fn is_blank_char(c: char) -> (r: bool)
    ensures
        r == is_blank(c),
{
    c == '\n' || c == '\r' || c == '\t' || c == ' ' || c == '[' || c == ']'
}

/// The characters of a string.
fn chars_of(s: &str) -> (r: Vec<char>)
    ensures
        r@ == s@,
{
    broadcast use vstd::string::group_string_axioms;
    let mut r: Vec<char> = Vec::new();
    for c in it: s.chars()
        invariant
            it.seq() == s@,
            r@ == it.seq().take(it.index() as int),
    {
        r.push(c);
        assert(r@ =~= it.seq().take(it.index() + 1));
    }
    assert(r@ =~= s@);
    r
}


proof fn lemma_found_keys_have_no_equals(data: Seq<u8>)
    ensures
        forall|i: int, j: int|
            0 <= i < open_scan(data).found.len() && 0 <= j < open_scan(data).found[i].0.len()
                ==> open_scan(data).found[i].0[j] != '=',
    decreases data.len(),
{
    if data.len() > 0 {
        lemma_found_keys_have_no_equals(data.drop_last());
        let st = open_scan(data.drop_last());
        let c = latin1(data.last());
        if c != '\'' && !st.quote_odd && c == '\n' {
            let buffer = if st.quote_odd || c == ',' || !is_blank(c) {
                st.buffer.push(c)
            } else {
                st.buffer
            };
            lemma_first_index(buffer, '=');
        }
    }
}

/// No key of a service file holds `=`: a line is split at its first `=`.
pub proof fn law_service_keys_have_no_equals(data: Seq<u8>)
    ensures
        forall|i: int, j: int|
            0 <= i < service_entries(data).len() && 0 <= j < service_entries(data)[i].0.len()
                ==> service_entries(data)[i].0[j] != '=',
{
    lemma_found_keys_have_no_equals(data);
}

/// Pairs are found only at line breaks: bytes after the last line break yield nothing,
/// so a service file followed by bytes without a line break describes the same service.
pub proof fn law_service_unterminated_tail(fname: Seq<char>, data: Seq<u8>, tail: Seq<u8>)
    requires
        forall|i: int| 0 <= i < tail.len() ==> tail[i] != 10u8,
    ensures
        service_entries(data + tail) == service_entries(data),
        service_from(fname, data + tail) == service_from(fname, data),
    decreases tail.len(),
{
    if tail.len() == 0 {
        assert(data + tail =~= data);
    } else {
        let t = tail.drop_last();
        law_service_unterminated_tail(fname, data, t);
        assert((data + tail).drop_last() =~= data + t);
        assert((data + tail).last() == tail.last());
    }
}


/// The reader of service files after `data`, started from `st`.
pub open spec fn open_from(st: OpenState, data: Seq<u8>) -> OpenState
    decreases data.len(),
{
    if data.len() == 0 {
        st
    } else {
        open_byte(open_from(st, data.drop_last()), data.last())
    }
}

proof fn lemma_open_from_start(data: Seq<u8>)
    ensures
        open_scan(data) == open_from(open_start(), data),
    decreases data.len(),
{
    if data.len() > 0 {
        lemma_open_from_start(data.drop_last());
    }
}

proof fn lemma_open_from_append(st: OpenState, a: Seq<u8>, b: Seq<u8>)
    ensures
        open_from(st, a + b) == open_from(open_from(st, a), b),
    decreases b.len(),
{
    if b.len() == 0 {
        assert(a + b =~= a);
    } else {
        lemma_open_from_append(st, a, b.drop_last());
        assert((a + b).drop_last() =~= a + b.drop_last());
        assert((a + b).last() == b.last());
    }
}

/// The section name stands at the front of the buffer and holds no `=`.
pub open spec fn open_ok(st: OpenState) -> bool {
    &&& 0 <= st.offset <= st.buffer.len()
    &&& forall|i: int| 0 <= i < st.offset ==> st.buffer[i] != '='
}

proof fn lemma_open_ok(data: Seq<u8>)
    ensures
        open_ok(open_scan(data)),
        data.len() > 0 && data.last() == 10u8 && !open_scan(data.drop_last()).quote_odd
            ==> open_scan(data).offset == open_scan(data).buffer.len(),
    decreases data.len(),
{
    if data.len() > 0 {
        lemma_open_ok(data.drop_last());
        let st = open_scan(data.drop_last());
        let c = latin1(data.last());
        if c != '\'' {
            let buffer = if st.quote_odd || c == ',' || !is_blank(c) {
                st.buffer.push(
                    if !st.quote_odd && c == ',' {
                        '\''
                    } else {
                        c
                    },
                )
            } else {
                st.buffer
            };
            let st2 = OpenState { buffer, ..st };
            assert(open_ok(st2)) by {
                assert forall|i: int| 0 <= i < st2.offset implies st2.buffer[i] != '=' by {
                    assert(st2.buffer[i] == st.buffer[i]);
                }
            }
            if !st.quote_odd && c == '\n' {
                lemma_first_index(buffer, '=');
                if first_index(buffer, '=') is None && buffer.len() > 0 && st.offset != buffer.len() {
                    let nb = buffer.skip(st.offset).push('.');
                    assert forall|i: int| 0 <= i < nb.len() implies nb[i] != '=' by {
                        if i < nb.len() - 1 {
                            assert(nb[i] == buffer[i + st.offset]);
                        }
                    }
                }
            }
        }
        if data.last() == 10u8 {
            assert(latin1(10u8) == '\n');
        }
    }
}

/// A byte that a key of a service file may hold: not dropped, not a quote, a comma or
/// `=`.
pub open spec fn key_byte(b: u8) -> bool {
    let c = latin1(b);
    !is_blank(c) && c != '\'' && c != ',' && c != '='
}

proof fn lemma_open_key(st: OpenState, k: Seq<u8>)
    requires
        !st.quote_odd,
        forall|i: int| 0 <= i < k.len() ==> key_byte(#[trigger] k[i]),
    ensures
        open_from(st, k) == (OpenState { buffer: st.buffer + latin1_seq(k), ..st }),
    decreases k.len(),
{
    if k.len() == 0 {
        assert(st.buffer + latin1_seq(k) =~= st.buffer);
    } else {
        let p = k.drop_last();
        assert forall|i: int| 0 <= i < p.len() implies key_byte(#[trigger] p[i]) by {
            assert(p[i] == k[i]);
        }
        lemma_open_key(st, p);
        assert(key_byte(k[k.len() - 1]));
        assert(st.buffer + latin1_seq(k) =~= (st.buffer + latin1_seq(p)).push(latin1(k.last())));
    }
}

proof fn lemma_open_quoted(st: OpenState, v: Seq<u8>)
    requires
        st.quote_odd,
        forall|i: int| 0 <= i < v.len() ==> #[trigger] v[i] != 39u8,
    ensures
        open_from(st, v) == (OpenState { buffer: st.buffer + latin1_seq(v), ..st }),
    decreases v.len(),
{
    if v.len() == 0 {
        assert(st.buffer + latin1_seq(v) =~= st.buffer);
    } else {
        let p = v.drop_last();
        assert forall|i: int| 0 <= i < p.len() implies #[trigger] p[i] != 39u8 by {
            assert(p[i] == v[i]);
        }
        lemma_open_quoted(st, p);
        assert(v[v.len() - 1] != 39u8);
        assert(latin1(v.last()) != '\'');
        assert(st.buffer + latin1_seq(v) =~= (st.buffer + latin1_seq(p)).push(latin1(v.last())));
    }
}

proof fn lemma_open_assign(st: OpenState)
    requires
        !st.quote_odd,
    ensures
        open_from(st, seq![32u8, 61u8, 32u8, 39u8]) == (OpenState {
            buffer: st.buffer.push('='),
            quote_odd: true,
            ..st
        }),
{
    let s1 = seq![32u8];
    let s2 = seq![32u8, 61u8];
    let s3 = seq![32u8, 61u8, 32u8];
    let s4 = seq![32u8, 61u8, 32u8, 39u8];
    assert(s1.drop_last() =~= Seq::<u8>::empty());
    assert(s2.drop_last() =~= s1);
    assert(s3.drop_last() =~= s2);
    assert(s4.drop_last() =~= s3);
    assert(latin1(32u8) == ' ' && latin1(61u8) == '=' && latin1(39u8) == '\'');
    assert(open_from(st, Seq::<u8>::empty()) == st);
    assert(open_from(st, s1) == st);
    let st2 = OpenState { buffer: st.buffer.push('='), ..st };
    assert(open_from(st, s2) == st2);
    assert(open_from(st, s3) == st2);
}

proof fn lemma_open_close(st: OpenState)
    requires
        st.quote_odd,
    ensures
        open_from(st, seq![39u8, 10u8]) == open_line(OpenState { quote_odd: false, ..st }),
{
    let s1 = seq![39u8];
    let s2 = seq![39u8, 10u8];
    assert(s1.drop_last() =~= Seq::<u8>::empty());
    assert(s2.drop_last() =~= s1);
    assert(latin1(39u8) == '\'' && latin1(10u8) == '\n');
    assert(open_from(st, Seq::<u8>::empty()) == st);
    assert(open_from(st, s1) == OpenState { quote_odd: false, ..st });
}

/// The line `key = 'value'` and its line break.
pub open spec fn service_line(key: Seq<u8>, value: Seq<u8>) -> Seq<u8> {
    key + seq![32u8, 61u8, 32u8, 39u8] + value + seq![39u8, 10u8]
}

/// A line `key = 'value'` written after whole lines is read back: it yields the pair of
/// the key, prefixed by the current section name, and the value. The key holds no blank,
/// bracket, quote, comma or `=`, and the value no quote.
pub proof fn law_service_line_is_read_back(data: Seq<u8>, key: Seq<u8>, value: Seq<u8>)
    requires
        data.len() == 0 || data.last() == 10u8,
        !open_scan(data).quote_odd,
        forall|i: int| 0 <= i < key.len() ==> key_byte(#[trigger] key[i]),
        forall|i: int| 0 <= i < value.len() ==> #[trigger] value[i] != 39u8,
    ensures
        service_entries(data + service_line(key, value)) == service_entries(data).push(
            (open_scan(data).buffer + latin1_seq(key), latin1_seq(value)),
        ),
{
    let st0 = open_scan(data);
    lemma_open_ok(data);
    if data.len() > 0 {
        let st = open_scan(data.drop_last());
        assert(latin1(10u8) == '\n');
        assert(!st.quote_odd);
    }
    assert(st0.offset == st0.buffer.len());
    lemma_open_from_start(data);
    lemma_open_from_start(data + service_line(key, value));
    let mid = seq![32u8, 61u8, 32u8, 39u8];
    let end = seq![39u8, 10u8];
    assert(data + service_line(key, value) =~= (((data + key) + mid) + value) + end);
    lemma_open_from_append(open_start(), data, key);
    lemma_open_from_append(open_start(), data + key, mid);
    lemma_open_from_append(open_start(), (data + key) + mid, value);
    lemma_open_from_append(open_start(), ((data + key) + mid) + value, end);
    lemma_open_key(st0, key);
    let st1 = OpenState { buffer: st0.buffer + latin1_seq(key), ..st0 };
    lemma_open_assign(st1);
    let st2 = OpenState { buffer: st1.buffer.push('='), quote_odd: true, ..st1 };
    lemma_open_quoted(st2, value);
    let st3 = OpenState { buffer: st2.buffer + latin1_seq(value), ..st2 };
    lemma_open_close(st3);
    let fin = OpenState { quote_odd: false, ..st3 };
    let head = st0.buffer + latin1_seq(key);
    let j = head.len() as int;
    assert(fin.buffer =~= head.push('=') + latin1_seq(value));
    assert(forall|i: int| 0 <= i < j ==> fin.buffer[i] != '=') by {
        assert forall|i: int| 0 <= i < j implies fin.buffer[i] != '=' by {
            assert(fin.buffer[i] == head[i]);
            if i >= st0.buffer.len() {
                let b = key[i - st0.buffer.len()];
                assert(key_byte(b));
                assert(head[i] == latin1(b));
            }
        }
    }
    assert(fin.buffer[j] == '=');
    lemma_first_index(fin.buffer, '=');
    assert(first_index(fin.buffer, '=') == Some(j)) by {
        match first_index(fin.buffer, '=') {
            Some(x) => {
                if x < j {
                    assert(fin.buffer[x] != '=');
                }
                if x > j {
                    assert(fin.buffer[j] != '=');
                }
            },
            None => {
                assert(fin.buffer[j] != '=');
            },
        }
    }
    assert(fin.buffer.take(j) =~= head);
    assert(fin.buffer.skip(j + 1) =~= latin1_seq(value));
}


/// The header line `[name]` and its line break.
pub open spec fn section_line(name: Seq<u8>) -> Seq<u8> {
    seq![91u8] + name + seq![93u8, 10u8]
}

proof fn lemma_section_header(data: Seq<u8>, name: Seq<u8>)
    requires
        data.len() == 0 || data.last() == 10u8,
        !open_scan(data).quote_odd,
        name.len() > 0,
        forall|i: int| 0 <= i < name.len() ==> key_byte(#[trigger] name[i]),
    ensures
        open_scan(data + section_line(name)) == (OpenState {
            buffer: latin1_seq(name).push('.'),
            offset: name.len() as int + 1,
            ..open_scan(data)
        }),
{
    let st0 = open_scan(data);
    lemma_open_ok(data);
    if data.len() > 0 {
        assert(latin1(10u8) == '\n');
    }
    assert(st0.offset == st0.buffer.len());
    let open_b = seq![91u8];
    let close_b = seq![93u8, 10u8];
    lemma_open_from_start(data);
    lemma_open_from_start(data + section_line(name));
    assert(data + section_line(name) =~= ((data + open_b) + name) + close_b);
    lemma_open_from_append(open_start(), data, open_b);
    lemma_open_from_append(open_start(), data + open_b, name);
    lemma_open_from_append(open_start(), (data + open_b) + name, close_b);
    assert(latin1(91u8) == '[' && latin1(93u8) == ']' && latin1(10u8) == '\n');
    assert(open_b.drop_last() =~= Seq::<u8>::empty());
    assert(open_from(st0, Seq::<u8>::empty()) == st0);
    assert(open_from(st0, open_b) == st0);
    lemma_open_key(st0, name);
    let st1 = OpenState { buffer: st0.buffer + latin1_seq(name), ..st0 };
    let c1 = seq![93u8];
    assert(c1.drop_last() =~= Seq::<u8>::empty());
    assert(close_b.drop_last() =~= c1);
    assert(open_from(st1, Seq::<u8>::empty()) == st1);
    assert(open_from(st1, c1) == st1);
    assert(open_from(st1, close_b) == open_line(st1));
    lemma_first_index(st1.buffer, '=');
    assert forall|i: int| 0 <= i < st1.buffer.len() implies st1.buffer[i] != '=' by {
        if i >= st0.buffer.len() {
            let b = name[i - st0.buffer.len()];
            assert(key_byte(b));
            assert(st1.buffer[i] == latin1(b));
        }
    }
    assert(first_index(st1.buffer, '=') is None);
    assert(st1.buffer.skip(st0.offset) =~= latin1_seq(name));
}

/// A header line `[name]` replaces the section name, whatever section was open: after
/// whole lines with no quote open, reading the header yields no pair and leaves `name`
/// and a dot as the prefix of the keys that follow, so the line `key = 'value'` after it
/// yields the key `name.key`. The name is not empty and holds no blank, bracket, quote,
/// comma or `=`; the key holds none of these either, and the value no quote.
pub proof fn law_section_header_replaces_section(
    data: Seq<u8>,
    name: Seq<u8>,
    key: Seq<u8>,
    value: Seq<u8>,
)
    requires
        data.len() == 0 || data.last() == 10u8,
        !open_scan(data).quote_odd,
        name.len() > 0,
        forall|i: int| 0 <= i < name.len() ==> key_byte(#[trigger] name[i]),
        forall|i: int| 0 <= i < key.len() ==> key_byte(#[trigger] key[i]),
        forall|i: int| 0 <= i < value.len() ==> #[trigger] value[i] != 39u8,
    ensures
        open_scan(data + section_line(name)).buffer == latin1_seq(name).push('.'),
        service_entries(data + section_line(name)) == service_entries(data),
        service_entries(data + section_line(name) + service_line(key, value)) == service_entries(
            data,
        ).push((latin1_seq(name).push('.') + latin1_seq(key), latin1_seq(value))),
{
    lemma_section_header(data, name);
    let d2 = data + section_line(name);
    assert(d2.last() == 10u8);
    law_service_line_is_read_back(d2, key, value);
}

}
