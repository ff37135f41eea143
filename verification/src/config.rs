//! The reader of configuration files: `key = 'value'` lines, arrays in brackets,
//! `[table]` headers, and quoted text that may span lines.

use vstd::prelude::*;
use crate::text::{byte_char, clone_strings, latin1, latin1_seq, push_char, str_eq, strings_view};

verus! {

/// A value of the configuration: a string or an array of strings.
#[derive(Debug, Clone, PartialEq, Eq)]
pub enum VALUE {
    Str(String),
    Arr(Vec<String>),
}

/// What a value is, as text.
pub enum ValueModel {
    Str(Seq<char>),
    Arr(Seq<Seq<char>>),
}

impl View for VALUE {
    type V = ValueModel;

    open spec fn view(&self) -> ValueModel {
        match self {
            VALUE::Str(s) => ValueModel::Str(s@),
            VALUE::Arr(v) => ValueModel::Arr(strings_view(v@)),
        }
    }
}

/// The part of a line that the reader is filling.
#[derive(Clone, Copy, PartialEq, Eq, Structural)]
pub enum Field {
    Key,
    Value,
    Element,
    Table,
}

/// The reader's state after some prefix of the input.
pub struct ScanState {
    pub quote_odd: bool,
    pub current: Field,
    pub key: Seq<char>,
    pub value: Seq<char>,
    pub element: Seq<char>,
    pub table: Seq<char>,
    pub array: Seq<Seq<char>>,
    pub mapped: Map<Seq<char>, ValueModel>,
}

/// The characters that are not taken as text outside quotes.
pub open spec fn is_wild(c: char) -> bool {
    c == '\n' || c == '\r' || c == '\t' || c == ' ' || c == '\'' || c == '=' || c == '['
        || c == ']' || c == ','
}

pub open spec fn scan_start() -> ScanState {
    ScanState {
        quote_odd: false,
        current: Field::Key,
        key: Seq::empty(),
        value: Seq::empty(),
        element: Seq::empty(),
        table: Seq::empty(),
        array: Seq::empty(),
        mapped: Map::empty(),
    }
}

/// The key under which a finished line is stored: prefixed by the table and a dot
/// when a table is open.
pub open spec fn line_key(st: ScanState) -> Seq<char> {
    if st.table.len() > 0 {
        st.table.push('.') + st.key
    } else {
        st.key
    }
}

/// The value of a finished line: the text after `=`, or, where there is none, the last
/// array read.
pub open spec fn line_value(st: ScanState) -> ValueModel {
    if st.value.len() == 0 {
        ValueModel::Arr(st.array)
    } else {
        ValueModel::Str(st.value)
    }
}

/// The end of a line outside quotes: a line with a key is stored, and a new key begins.
pub open spec fn end_line(st: ScanState) -> ScanState {
    ScanState {
        key: Seq::empty(),
        value: Seq::empty(),
        current: Field::Key,
        mapped: if st.key.len() > 0 {
            st.mapped.insert(line_key(st), line_value(st))
        } else {
            st.mapped
        },
        ..st
    }
}

/// One character taken as text, into the part of the line being filled.
pub open spec fn take_text(st: ScanState, c: char) -> ScanState {
    match st.current {
        Field::Key => ScanState { key: st.key.push(c), ..st },
        Field::Value => ScanState { value: st.value.push(c), ..st },
        Field::Element => ScanState { element: st.element.push(c), ..st },
        Field::Table => ScanState { table: st.table.push(c), ..st },
    }
}

/// What reading one byte does to the reader.
pub open spec fn scan_byte(st: ScanState, b: u8) -> ScanState {
    let c = latin1(b);
    if (st.quote_odd || !is_wild(c)) && c != '\'' {
        take_text(st, c)
    } else if c == '\'' {
        ScanState { quote_odd: !st.quote_odd, ..st }
    } else if c == '=' {
        ScanState { current: Field::Value, ..st }
    } else if c == '[' {
        if st.current == Field::Value {
            ScanState { current: Field::Element, array: Seq::empty(), ..st }
        } else {
            ScanState { current: Field::Table, table: Seq::empty(), ..st }
        }
    } else if (c == ']' || c == ',') && st.current == Field::Element {
        ScanState { array: st.array.push(st.element), element: Seq::empty(), ..st }
    } else if c == '\n' && (!st.quote_odd || st.current != Field::Element) {
        end_line(st)
    } else {
        st
    }
}

/// The reader's state after the whole of `data`.
pub open spec fn scan(data: Seq<u8>) -> ScanState
    decreases data.len(),
{
    if data.len() == 0 {
        scan_start()
    } else {
        scan_byte(scan(data.drop_last()), data.last())
    }
}

/// The keys and values that a configuration text defines.
pub open spec fn parse_config(data: Seq<u8>) -> Map<Seq<char>, ValueModel> {
    scan(data).mapped
}

/// The map that a list of distinct keys with their values stands for.
pub open spec fn entries_map(e: Seq<(String, VALUE)>) -> Map<Seq<char>, ValueModel>
    decreases e.len(),
{
    if e.len() == 0 {
        Map::empty()
    } else {
        entries_map(e.drop_last()).insert(e.last().0@, e.last().1@)
    }
}

pub open spec fn keys_distinct(e: Seq<(String, VALUE)>) -> bool {
    forall|i: int, j: int| 0 <= i < j < e.len() ==> e[i].0@ != e[j].0@
}

/// A list of distinct keys maps each of its keys to its value, and nothing else.
pub proof fn lemma_entries_map(e: Seq<(String, VALUE)>)
    requires
        keys_distinct(e),
    ensures
        forall|k: Seq<char>|
            entries_map(e).contains_key(k) <==> exists|i: int| 0 <= i < e.len() && e[i].0@ == k,
        forall|i: int| 0 <= i < e.len() ==> entries_map(e)[#[trigger] e[i].0@] == e[i].1@,
    decreases e.len(),
{
    if e.len() > 0 {
        let p = e.drop_last();
        let l = e.last();
        assert forall|i: int, j: int| 0 <= i < j < p.len() implies p[i].0@ != p[j].0@ by {
            assert(p[i] == e[i]);
            assert(p[j] == e[j]);
        }
        lemma_entries_map(p);
        assert forall|k: Seq<char>|
            entries_map(e).contains_key(k) <==> exists|i: int|
                0 <= i < e.len() && e[i].0@ == k by {
            if k == l.0@ {
                assert(e[e.len() - 1].0@ == k);
            } else {
                if entries_map(e).contains_key(k) {
                    assert(entries_map(p).contains_key(k));
                    let i = choose|i: int| 0 <= i < p.len() && p[i].0@ == k;
                    assert(p[i] == e[i]);
                }
                if exists|i: int| 0 <= i < e.len() && e[i].0@ == k {
                    let i = choose|i: int| 0 <= i < e.len() && e[i].0@ == k;
                    assert(i < e.len() - 1);
                    assert(p[i] == e[i]);
                    assert(entries_map(p).contains_key(k));
                }
            }
        }
        assert forall|i: int| 0 <= i < e.len() implies entries_map(e)[#[trigger] e[i].0@]
            == e[i].1@ by {
            if i < e.len() - 1 {
                assert(p[i] == e[i]);
                assert(e[i].0@ != l.0@);
                assert(entries_map(p)[p[i].0@] == p[i].1@);
            }
        }
    }
}

/// Stores `v` under `k`, replacing the value that `k` had.
fn insert_entry(entries: &mut Vec<(String, VALUE)>, k: String, v: VALUE)
    requires
        keys_distinct(old(entries)@),
    ensures
        keys_distinct(final(entries)@),
        entries_map(final(entries)@) == entries_map(old(entries)@).insert(k@, v@),
{
    let ghost e0 = entries@;
    proof {
        lemma_entries_map(e0);
    }
    let mut i: usize = 0;
    while i < entries.len()
        invariant
            i <= entries.len(),
            entries@ == e0,
            e0 == old(entries)@,
            keys_distinct(e0),
            forall|j: int| 0 <= j < i ==> entries@[j].0@ != k@,
        decreases entries.len() - i,
    {
        if entries[i].0 == k {
            let ghost kv = k@;
            let ghost vv = v@;
            entries.set(i, (k, v));
            proof {
                lemma_entries_map(e0);
                let e1 = entries@;
                assert(e1 == e0.update(i as int, e1[i as int]));
                assert(keys_distinct(e1)) by {
                    assert forall|a: int, b: int| 0 <= a < b < e1.len() implies e1[a].0@
                        != e1[b].0@ by {
                        if a != i && b != i {
                            assert(e1[a] == e0[a] && e1[b] == e0[b]);
                        } else if a == i {
                            assert(e1[b] == e0[b]);
                        } else {
                            assert(e1[a] == e0[a]);
                        }
                    }
                }
                lemma_entries_map(e1);
                assert(entries_map(e1) =~= entries_map(e0).insert(kv, vv)) by {
                    assert forall|key: Seq<char>| #[trigger]
                        entries_map(e1).contains_key(key) == entries_map(e0).insert(
                            kv,
                            vv,
                        ).contains_key(key) by {
                        if entries_map(e0).contains_key(key) {
                            let j = choose|j: int| 0 <= j < e0.len() && e0[j].0@ == key;
                            if j != i {
                                assert(e1[j] == e0[j]);
                            }
                        }
                        if entries_map(e1).contains_key(key) {
                            let j = choose|j: int| 0 <= j < e1.len() && e1[j].0@ == key;
                            if j != i {
                                assert(e1[j] == e0[j]);
                            }
                        }
                    }
                    assert forall|key: Seq<char>| #[trigger]
                        entries_map(e1).contains_key(key) implies entries_map(e1)[key]
                        == entries_map(e0).insert(kv, vv)[key] by {
                        let j = choose|j: int| 0 <= j < e1.len() && e1[j].0@ == key;
                        if j != i {
                            assert(e1[j] == e0[j]);
                            assert(entries_map(e1)[e1[j].0@] == e1[j].1@);
                            assert(entries_map(e0)[e0[j].0@] == e0[j].1@);
                        } else {
                            assert(entries_map(e1)[e1[j].0@] == e1[j].1@);
                        }
                    }
                }
                assert(entries_map(e1) == entries_map(e0).insert(kv, vv));
            }
            return;
        }
        i = i + 1;
    }
    entries.push((k, v));
    proof {
        let e1 = entries@;
        assert(e1.drop_last() =~= e0);
        assert(keys_distinct(e1));
    }
}

/// A configuration: the keys that a text defines, each with its value.
///
/// The entries are kept in a list in which no key occurs twice (the type's invariant),
/// rather than in a `HashMap<String, VALUE>`: vstd's specification of `HashMap` proves
/// nothing about lookups by `String` keys, while a list with distinct keys gives the
/// same lookups and replacements with every step proved.
#[derive(Debug)]
pub struct Parsed {
    entries: Vec<(String, VALUE)>,
}

impl View for Parsed {
    type V = Map<Seq<char>, ValueModel>;

    closed spec fn view(&self) -> Map<Seq<char>, ValueModel> {
        entries_map(self.entries@)
    }
}

impl Parsed {
    #[verifier::type_invariant]
    closed spec fn inv(self) -> bool {
        keys_distinct(self.entries@)
    }

    /// Reads a configuration text.
    ///
    /// Outside quotes, blanks, `\r` and `\t` are skipped, `=` starts the value, `[` after
    /// `=` starts an array whose elements end at `,` or `]`, and any other `[` starts a
    /// table name. A quote opens or closes quoted text, which is taken as it stands, line
    /// breaks included. A line break outside quotes ends the line: a line with a key is
    /// stored under the key, prefixed by the table name and a dot when there is one. A
    /// text that does not end in a line break loses its last line.
    pub fn new(data: &[u8]) -> (p: Parsed)
        ensures
            p@ == parse_config(data@),
    {
        let mut entries: Vec<(String, VALUE)> = Vec::new();
        let mut quote_odd = false;
        let mut current = Field::Key;
        let mut key = String::new();
        let mut value = String::new();
        let mut element = String::new();
        let mut table = String::new();
        let mut array: Vec<String> = Vec::new();
        let mut i: usize = 0;
        while i < data.len()
            invariant
                i <= data.len(),
                keys_distinct(entries@),
                ({
                    let st = scan(data@.subrange(0, i as int));
                    &&& st.quote_odd == quote_odd
                    &&& st.current == current
                    &&& st.key == key@
                    &&& st.value == value@
                    &&& st.element == element@
                    &&& st.table == table@
                    &&& st.array == strings_view(array@)
                    &&& st.mapped == entries_map(entries@)
                }),
            decreases data.len() - i,
        {
            let ghost st = scan(data@.subrange(0, i as int));
            assert(data@.subrange(0, i + 1).drop_last() =~= data@.subrange(0, i as int));
            let c = byte_char(data[i]);
            if (quote_odd || !is_wild_char(c)) && c != '\'' {
                match current {
                    Field::Key => push_char(&mut key, c),
                    Field::Value => push_char(&mut value, c),
                    Field::Element => push_char(&mut element, c),
                    Field::Table => push_char(&mut table, c),
                }
            } else if c == '\'' {
                quote_odd = !quote_odd;
            } else if c == '=' {
                current = Field::Value;
            } else if c == '[' {
                if current == Field::Value {
                    current = Field::Element;
                    array = Vec::new();
                    assert(strings_view(array@) =~= Seq::<Seq<char>>::empty());
                } else {
                    current = Field::Table;
                    table = String::new();
                }
            } else if (c == ']' || c == ',') && current == Field::Element {
                let ghost old_array = array@;
                let piece = element;
                array.push(piece);
                element = String::new();
                assert(strings_view(array@) =~= strings_view(old_array).push(piece@));
            } else if c == '\n' && (!quote_odd || current != Field::Element) {
                if !key.as_str().is_empty() {
                    let full_key = if !table.as_str().is_empty() {
                        let mut k = table.clone();
                        push_char(&mut k, '.');
                        k.append(key.as_str());
                        k
                    } else {
                        key.clone()
                    };
                    let v = if value.as_str().is_empty() {
                        VALUE::Arr(clone_strings(&array))
                    } else {
                        VALUE::Str(value.clone())
                    };
                    assert(full_key@ == line_key(st));
                    assert(v@ == line_value(st));
                    insert_entry(&mut entries, full_key, v);
                }
                key = String::new();
                value = String::new();
                current = Field::Key;
            }
            i = i + 1;
        }
        assert(data@.subrange(0, data@.len() as int) =~= data@);
        Parsed { entries }
    }

    /// The string stored under `k`, if `k` holds a string.
    pub fn get_string(&self, k: &str) -> (r: Option<&String>)
        ensures
            match r {
                Some(s) => self@.contains_key(k@) && self@[k@] == ValueModel::Str(s@),
                None => !(self@.contains_key(k@) && self@[k@] is Str),
            },
    {
        proof {
            use_type_invariant(self);
        }
        match self.find(k) {
            Some(i) => match &self.entries[i].1 {
                VALUE::Str(s) => Some(s),
                VALUE::Arr(_) => None,
            },
            None => None,
        }
    }

    /// The array stored under `k`, if `k` holds an array.
    pub fn get_array(&self, k: &str) -> (r: Option<&Vec<String>>)
        ensures
            match r {
                Some(a) => self@.contains_key(k@) && self@[k@] == ValueModel::Arr(strings_view(a@)),
                None => !(self@.contains_key(k@) && self@[k@] is Arr),
            },
    {
        proof {
            use_type_invariant(self);
        }
        match self.find(k) {
            Some(i) => match &self.entries[i].1 {
                VALUE::Arr(a) => Some(a),
                VALUE::Str(_) => None,
            },
            None => None,
        }
    }

    /// The position of the entry for `k`.
    fn find(&self, k: &str) -> (r: Option<usize>)
        requires
            keys_distinct(self.entries@),
        ensures
            match r {
                Some(i) => i < self.entries@.len() && self.entries@[i as int].0@ == k@
                    && self@.contains_key(k@) && self@[k@] == self.entries@[i as int].1@,
                None => !self@.contains_key(k@),
            },
    {
        proof {
            lemma_entries_map(self.entries@);
        }
        let mut i: usize = 0;
        while i < self.entries.len()
            invariant
                i <= self.entries@.len(),
                keys_distinct(self.entries@),
                forall|j: int| 0 <= j < i ==> self.entries@[j].0@ != k@,
            decreases self.entries@.len() - i,
        {
            if str_eq(self.entries[i].0.as_str(), k) {
                proof {
                    lemma_entries_map(self.entries@);
                }
                return Some(i);
            }
            i = i + 1;
        }
        None
    }
}

/// Whether `c` is one of the characters that are not text outside quotes.
fn is_wild_char(c: char) -> (r: bool)
    ensures
        r == is_wild(c),
{
    c == '\n' || c == '\r' || c == '\t' || c == ' ' || c == '\'' || c == '=' || c == '['
        || c == ']' || c == ','
}


/// What the reader keeps true of every state it reaches: stored keys are not empty,
/// and stored strings are not empty.
pub open spec fn stored_nonempty(m: Map<Seq<char>, ValueModel>) -> bool {
    forall|k: Seq<char>| #[trigger]
        m.contains_key(k) ==> k.len() > 0 && (m[k] matches ValueModel::Str(v) ==> v.len() > 0)
}

proof fn lemma_scan_stored_nonempty(data: Seq<u8>)
    ensures
        stored_nonempty(scan(data).mapped),
    decreases data.len(),
{
    if data.len() > 0 {
        lemma_scan_stored_nonempty(data.drop_last());
        let st = scan(data.drop_last());
        if st.key.len() > 0 {
            assert(line_key(st).len() > 0);
        }
    }
}

/// Every key that a configuration text defines is non-empty, and so is every string
/// value: a line without a key stores nothing, and a line without text after `=` stores
/// an array.
pub proof fn law_stored_keys_and_strings_nonempty(data: Seq<u8>)
    ensures
        forall|k: Seq<char>| #[trigger]
            parse_config(data).contains_key(k) ==> k.len() > 0 && (parse_config(data)[k] matches ValueModel::Str(
                v,
            ) ==> v.len() > 0),
{
    lemma_scan_stored_nonempty(data);
}

/// Values are stored only at line breaks: bytes after the last line break define
/// nothing, so a text followed by bytes without a line break defines what the text
/// defines.
pub proof fn law_unterminated_tail_defines_nothing(data: Seq<u8>, tail: Seq<u8>)
    requires
        forall|i: int| 0 <= i < tail.len() ==> tail[i] != 10u8,
    ensures
        parse_config(data + tail) == parse_config(data),
    decreases tail.len(),
{
    if tail.len() == 0 {
        assert(data + tail =~= data);
    } else {
        let t = tail.drop_last();
        law_unterminated_tail_defines_nothing(data, t);
        assert((data + tail).drop_last() =~= data + t);
        assert((data + tail).last() == tail.last());
        assert(tail.last() != 10u8);
        assert(latin1(tail.last()) != '\n') by {
            assert(tail.last() != 10u8);
        }
    }
}


/// The reader's state after `data`, started from `st`.
pub open spec fn scan_from(st: ScanState, data: Seq<u8>) -> ScanState
    decreases data.len(),
{
    if data.len() == 0 {
        st
    } else {
        scan_byte(scan_from(st, data.drop_last()), data.last())
    }
}

proof fn lemma_scan_from_start(data: Seq<u8>)
    ensures
        scan(data) == scan_from(scan_start(), data),
    decreases data.len(),
{
    if data.len() > 0 {
        lemma_scan_from_start(data.drop_last());
    }
}

proof fn lemma_scan_from_append(st: ScanState, a: Seq<u8>, b: Seq<u8>)
    ensures
        scan_from(st, a + b) == scan_from(scan_from(st, a), b),
    decreases b.len(),
{
    if b.len() == 0 {
        assert(a + b =~= a);
    } else {
        lemma_scan_from_append(st, a, b.drop_last());
        assert((a + b).drop_last() =~= a + b.drop_last());
        assert((a + b).last() == b.last());
    }
}

/// A byte that is text outside quotes.
pub open spec fn plain_byte(b: u8) -> bool {
    !is_wild(latin1(b))
}

proof fn lemma_scan_key(st: ScanState, k: Seq<u8>)
    requires
        st.current == Field::Key,
        !st.quote_odd,
        forall|i: int| 0 <= i < k.len() ==> plain_byte(#[trigger] k[i]),
    ensures
        scan_from(st, k) == (ScanState { key: st.key + latin1_seq(k), ..st }),
    decreases k.len(),
{
    if k.len() == 0 {
        assert(st.key + latin1_seq(k) =~= st.key);
    } else {
        let p = k.drop_last();
        assert forall|i: int| 0 <= i < p.len() implies plain_byte(#[trigger] p[i]) by {
            assert(p[i] == k[i]);
        }
        lemma_scan_key(st, p);
        assert(plain_byte(k[k.len() - 1]));
        assert(latin1(k.last()) != '\'');
        assert(st.key + latin1_seq(k) =~= (st.key + latin1_seq(p)).push(latin1(k.last())));
    }
}

proof fn lemma_scan_quoted(st: ScanState, v: Seq<u8>)
    requires
        st.current == Field::Value,
        st.quote_odd,
        forall|i: int| 0 <= i < v.len() ==> #[trigger] v[i] != 39u8,
    ensures
        scan_from(st, v) == (ScanState { value: st.value + latin1_seq(v), ..st }),
    decreases v.len(),
{
    if v.len() == 0 {
        assert(st.value + latin1_seq(v) =~= st.value);
    } else {
        let p = v.drop_last();
        assert forall|i: int| 0 <= i < p.len() implies #[trigger] p[i] != 39u8 by {
            assert(p[i] == v[i]);
        }
        lemma_scan_quoted(st, p);
        assert(v[v.len() - 1] != 39u8);
        assert(latin1(v.last()) != '\'');
        assert(st.value + latin1_seq(v) =~= (st.value + latin1_seq(p)).push(latin1(v.last())));
    }
}

/// The line `key = 'value'` and its line break.
pub open spec fn config_line(key: Seq<u8>, value: Seq<u8>) -> Seq<u8> {
    key + seq![32u8, 61u8, 32u8, 39u8] + value + seq![39u8, 10u8]
}

/// The key under which a line's key is stored in the open table.
pub open spec fn in_table(table: Seq<char>, key: Seq<char>) -> Seq<char> {
    if table.len() > 0 {
        table.push('.') + key
    } else {
        key
    }
}

proof fn lemma_scan_assign(st: ScanState)
    requires
        st.current == Field::Key,
        !st.quote_odd,
    ensures
        scan_from(st, seq![32u8, 61u8, 32u8, 39u8]) == (ScanState {
            current: Field::Value,
            quote_odd: true,
            ..st
        }),
{
    let s1 = seq![32u8];
    let s2 = seq![32u8, 61u8];
    let s3 = seq![32u8, 61u8, 32u8];
    let s4 = seq![32u8, 61u8, 32u8, 39u8];
    assert(s1.drop_last() =~= Seq::<u8>::empty());
    assert(s2.drop_last() =~= s1);
    assert(s3.drop_last() =~= s2);
    assert(s4.drop_last() =~= s3);
    assert(latin1(32u8) == ' ' && latin1(61u8) == '=' && latin1(39u8) == '\'');
    assert(scan_from(st, Seq::<u8>::empty()) == st);
    assert(scan_from(st, s1) == st);
    let st2 = ScanState { current: Field::Value, ..st };
    assert(scan_from(st, s2) == st2);
    assert(scan_from(st, s3) == st2);
}

proof fn lemma_scan_close(st: ScanState)
    requires
        st.quote_odd,
    ensures
        scan_from(st, seq![39u8, 10u8]) == end_line(ScanState { quote_odd: false, ..st }),
{
    let s1 = seq![39u8];
    let s2 = seq![39u8, 10u8];
    assert(s1.drop_last() =~= Seq::<u8>::empty());
    assert(s2.drop_last() =~= s1);
    assert(latin1(39u8) == '\'' && latin1(10u8) == '\n');
    assert(scan_from(st, Seq::<u8>::empty()) == st);
    assert(scan_from(st, s1) == ScanState { quote_odd: false, ..st });
}

/// After whole lines, outside quotes, the reader is at the start of a line.
proof fn lemma_line_start(data: Seq<u8>)
    requires
        data.len() == 0 || data.last() == 10u8,
        !scan(data).quote_odd,
    ensures
        scan(data).current == Field::Key,
        scan(data).key.len() == 0,
        scan(data).value.len() == 0,
{
    if data.len() > 0 {
        assert(latin1(10u8) == '\n');
    }
}

/// A line `key = 'value'` written after whole lines is read back: it stores the value
/// under the key, prefixed by the open table's name, and leaves every other key as it
/// was. The key is text outside quotes, the value has no quote, and neither is empty.
pub proof fn law_line_is_read_back(data: Seq<u8>, key: Seq<u8>, value: Seq<u8>)
    requires
        data.len() == 0 || data.last() == 10u8,
        !scan(data).quote_odd,
        key.len() > 0,
        value.len() > 0,
        forall|i: int| 0 <= i < key.len() ==> plain_byte(#[trigger] key[i]),
        forall|i: int| 0 <= i < value.len() ==> #[trigger] value[i] != 39u8,
    ensures
        parse_config(data + config_line(key, value)) == parse_config(data).insert(
            in_table(scan(data).table, latin1_seq(key)),
            ValueModel::Str(latin1_seq(value)),
        ),
{
    let st0 = scan(data);
    lemma_line_start(data);
    lemma_scan_from_start(data);
    lemma_scan_from_start(data + config_line(key, value));
    let mid = seq![32u8, 61u8, 32u8, 39u8];
    let end = seq![39u8, 10u8];
    assert(data + config_line(key, value) =~= (((data + key) + mid) + value) + end);
    lemma_scan_from_append(scan_start(), data, key);
    lemma_scan_from_append(scan_start(), data + key, mid);
    lemma_scan_from_append(scan_start(), (data + key) + mid, value);
    lemma_scan_from_append(scan_start(), ((data + key) + mid) + value, end);
    lemma_scan_key(st0, key);
    let st1 = ScanState { key: st0.key + latin1_seq(key), ..st0 };
    lemma_scan_assign(st1);
    let st2 = ScanState { current: Field::Value, quote_odd: true, ..st1 };
    lemma_scan_quoted(st2, value);
    let st3 = ScanState { value: st2.value + latin1_seq(value), ..st2 };
    lemma_scan_close(st3);
    assert(st1.key =~= latin1_seq(key));
    assert(st3.value =~= latin1_seq(value));
    let fin = ScanState { quote_odd: false, ..st3 };
    assert(line_key(fin) == in_table(st0.table, latin1_seq(key)));
    assert(line_value(fin) == ValueModel::Str(latin1_seq(value)));
}

/// A carriage return outside quotes changes nothing: with no quote open after `data`,
/// reading `data`, a carriage return and then `rest` defines exactly what reading `data`
/// and `rest` defines. So a file with `\r\n` line endings defines what the same file
/// with `\n` line endings defines, and no stored text ends in a carriage return taken
/// from outside quotes.
pub proof fn law_carriage_return_outside_quotes_ignored(data: Seq<u8>, rest: Seq<u8>)
    requires
        !scan(data).quote_odd,
    ensures
        parse_config(data + seq![13u8] + rest) == parse_config(data + rest),
{
    let cr = seq![13u8];
    lemma_scan_from_start(data + cr + rest);
    lemma_scan_from_start(data + rest);
    lemma_scan_from_start(data);
    lemma_scan_from_append(scan_start(), data + cr, rest);
    lemma_scan_from_append(scan_start(), data, rest);
    lemma_scan_from_append(scan_start(), data, cr);
    assert(cr.drop_last() =~= Seq::<u8>::empty());
    assert(latin1(13u8) == '\r');
    assert(scan_from(scan(data), Seq::<u8>::empty()) == scan(data));
    assert(scan_from(scan(data), cr) == scan(data));
}

}
