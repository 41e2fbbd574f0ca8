//! A KeyValues2 text writer: indented lines, quoted properties, string
//! arrays and the data streams of a polygon mesh.
//!
//! Every method states the exact text it appends; the spec functions
//! below are that text.
use vstd::prelude::*;
use vstd::string::StrSliceExecFns;

verus! {

// ─── the text ────────────────────────────────────────────────────────
/// `n` tab characters.
pub open spec fn tabs(n: nat) -> Seq<char>
    decreases n,
{
    if n == 0 {
        Seq::empty()
    } else {
        tabs((n - 1) as nat) + "\t"@
    }
}

/// A line at depth `ind`.
pub open spec fn line_text(ind: nat, text: Seq<char>) -> Seq<char> {
    tabs(ind) + text + "\n"@
}

/// A property line: `"name" "dtype" "value"`.
pub open spec fn prop_text(ind: nat, name: Seq<char>, dtype: Seq<char>, value: Seq<char>) -> Seq<
    char,
> {
    tabs(ind) + "\""@ + name + "\" \""@ + dtype + "\" \""@ + value + "\"\n"@
}

/// The first line of an array: `"name" "dtype" ` and a newline.
pub open spec fn array_header_text(ind: nat, name: Seq<char>, dtype: Seq<char>) -> Seq<char> {
    tabs(ind) + "\""@ + name + "\" \""@ + dtype + "\" \n"@
}

/// One quoted array item, with a comma after it or not.
pub open spec fn item_text(ind: nat, value: Seq<char>, comma: bool) -> Seq<char> {
    if comma {
        tabs(ind) + "\""@ + value + "\",\n"@
    } else {
        tabs(ind) + "\""@ + value + "\"\n"@
    }
}

/// Items that each carry a comma.
pub open spec fn comma_items(ind: nat, items: Seq<Seq<char>>) -> Seq<char>
    decreases items.len(),
{
    if items.len() == 0 {
        Seq::empty()
    } else {
        comma_items(ind, items.drop_last()) + item_text(ind, items.last(), true)
    }
}

/// Items separated by commas: every item but the last carries one.
pub open spec fn items_text(ind: nat, items: Seq<Seq<char>>) -> Seq<char> {
    if items.len() == 0 {
        Seq::empty()
    } else {
        comma_items(ind, items.drop_last()) + item_text(ind, items.last(), false)
    }
}

/// A whole array: header, `[`, the items one level deeper, `]`.
pub open spec fn array_text(ind: nat, name: Seq<char>, dtype: Seq<char>, items: Seq<Seq<char>>) -> Seq<
    char,
> {
    array_header_text(ind, name, dtype) + line_text(ind, "["@) + items_text(ind + 1, items)
        + line_text(ind, "]"@)
}

/// The views of some strings.
pub open spec fn string_views(v: Seq<String>) -> Seq<Seq<char>> {
    v.map_values(|s: String| s@)
}

/// The text of one decimal digit.
pub open spec fn digit_text(d: int) -> Seq<char> {
    if d == 0 {
        "0"@
    } else if d == 1 {
        "1"@
    } else if d == 2 {
        "2"@
    } else if d == 3 {
        "3"@
    } else if d == 4 {
        "4"@
    } else if d == 5 {
        "5"@
    } else if d == 6 {
        "6"@
    } else if d == 7 {
        "7"@
    } else if d == 8 {
        "8"@
    } else {
        "9"@
    }
}

/// The decimal digits of `n`, without leading zeros.
pub open spec fn dec_nat(n: nat) -> Seq<char>
    decreases n,
{
    if n < 10 {
        digit_text(n as int)
    } else {
        dec_nat(n / 10) + digit_text((n % 10) as int)
    }
}

/// The decimal text of `i`, with a minus sign when it is negative.
pub open spec fn dec_int(i: int) -> Seq<char> {
    if i < 0 {
        "-"@ + dec_nat((-i) as nat)
    } else {
        dec_nat(i as nat)
    }
}

/// Whether the `\n` at `p` ends a line with something on it: it is not
/// the first character and does not follow another `\n`.
pub open spec fn ends_full_line(s: Seq<char>, p: int) -> bool {
    0 < p < s.len() && s[p] == '\n' && s[p - 1] != '\n'
}

/// The last position below `n` of a `\n` that ends a line with something
/// on it.
pub open spec fn last_full_line_end_below(s: Seq<char>, n: int) -> Option<int>
    decreases n,
{
    if n <= 0 {
        None
    } else if ends_full_line(s, n - 1) {
        Some(n - 1)
    } else {
        last_full_line_end_below(s, n - 1)
    }
}

/// What a trailing comma makes of `s`: a `,` at the end of the last line
/// with something on it, in front of the `\n` that ends that line;
/// where no such line ends in `s`, `s` stays as it is.
pub open spec fn comma_after_last_line(s: Seq<char>) -> Seq<char> {
    match last_full_line_end_below(s, s.len() as int) {
        Some(p) => s.take(p) + ","@ + s.skip(p),
        None => s,
    }
}

proof fn lemma_last_full_line_end_below(s: Seq<char>, n: int)
    requires
        0 <= n <= s.len(),
    ensures
        match last_full_line_end_below(s, n) {
            Some(p) => 0 <= p < n && ends_full_line(s, p) && forall|q: int| p < q < n ==> !ends_full_line(s, q),
            None => forall|q: int| 0 <= q < n ==> !ends_full_line(s, q),
        },
    decreases n,
{
    if n > 0 && !ends_full_line(s, n - 1) {
        lemma_last_full_line_end_below(s, n - 1);
    }
}

/// The position of the `\n` that ends the last line of `s` with
/// something on it, if any.
fn find_last_full_line_end(s: &str) -> (r: Option<usize>)
    ensures
        match r {
            Some(p) => last_full_line_end_below(s@, s@.len() as int) == Some(p as int) && 0 < p < s@.len(),
            None => last_full_line_end_below(s@, s@.len() as int) is None,
        },
{
    let n = s.unicode_len();
    let mut i: usize = n;
    while i > 1
        invariant
            n == s@.len(),
            0 <= i <= n,
            forall|q: int| i <= q < n ==> !ends_full_line(s@, q),
        decreases i,
    {
        if s.get_char(i - 1) == '\n' && s.get_char(i - 2) != '\n' {
            proof {
                assert(ends_full_line(s@, i - 1));
                lemma_last_full_line_end_below(s@, n as int);
            }
            return Some(i - 1);
        }
        i -= 1;
    }
    proof {
        assert forall|q: int| 0 <= q < n implies !ends_full_line(s@, q) by {
            if q < i {
                assert(q <= 0);
            }
        }
        lemma_last_full_line_end_below(s@, n as int);
    }
    None
}

/// The closing line of a stream, with the comma that separates it from
/// the next one or without.
pub open spec fn close_text(ind: nat, comma: bool) -> Seq<char> {
    if comma {
        tabs(ind) + "}"@ + ","@ + "\n"@
    } else {
        line_text(ind, "}"@)
    }
}

/// A `CDmePolygonMeshDataStream` element at depth `ind`.
pub open spec fn stream_text(
    ind: nat,
    id: Seq<char>,
    name: Seq<char>,
    standard_attr: Seq<char>,
    semantic: Seq<char>,
    sem_idx: int,
    data_state: int,
    dtype: Seq<char>,
    data: Seq<Seq<char>>,
    comma: bool,
) -> Seq<char> {
    line_text(ind, "\"CDmePolygonMeshDataStream\""@) + line_text(ind, "{"@) + prop_text(
        ind + 1,
        "id"@,
        "elementid"@,
        id,
    ) + prop_text(ind + 1, "name"@, "string"@, name + ":"@ + dec_int(sem_idx)) + prop_text(
        ind + 1,
        "standardAttributeName"@,
        "string"@,
        standard_attr,
    ) + prop_text(ind + 1, "semanticName"@, "string"@, semantic) + prop_text(
        ind + 1,
        "semanticIndex"@,
        "int"@,
        dec_int(sem_idx),
    ) + prop_text(ind + 1, "vertexBufferLocation"@, "int"@, "0"@) + prop_text(
        ind + 1,
        "dataStateFlags"@,
        "int"@,
        dec_int(data_state),
    ) + prop_text(ind + 1, "subdivisionBinding"@, "element"@, ""@) + array_text(
        ind + 1,
        "data"@,
        dtype,
        data,
    ) + close_text(ind, comma)
}

/// The parameters of one data stream.
pub struct DataStream {
    pub id: String,
    pub name: String,
    pub standard_attr: String,
    pub semantic: String,
    pub sem_idx: i32,
    pub data_state: i32,
    pub dtype: String,
    pub data: Vec<String>,
}

/// The parameters of one data stream, as text and numbers.
pub struct StreamView {
    pub id: Seq<char>,
    pub name: Seq<char>,
    pub standard_attr: Seq<char>,
    pub semantic: Seq<char>,
    pub sem_idx: int,
    pub data_state: int,
    pub dtype: Seq<char>,
    pub data: Seq<Seq<char>>,
}

impl View for DataStream {
    type V = StreamView;

    open spec fn view(&self) -> StreamView {
        StreamView {
            id: self.id@,
            name: self.name@,
            standard_attr: self.standard_attr@,
            semantic: self.semantic@,
            sem_idx: self.sem_idx as int,
            data_state: self.data_state as int,
            dtype: self.dtype@,
            data: string_views(self.data@),
        }
    }
}

/// The views of some streams.
pub open spec fn stream_views(v: Seq<DataStream>) -> Seq<StreamView> {
    v.map_values(|s: DataStream| s@)
}

/// The text of a stream at depth `ind`.
pub open spec fn data_stream_text(ind: nat, s: StreamView, comma: bool) -> Seq<char> {
    stream_text(
        ind,
        s.id,
        s.name,
        s.standard_attr,
        s.semantic,
        s.sem_idx,
        s.data_state,
        s.dtype,
        s.data,
        comma,
    )
}

/// Streams that each end with a comma.
pub open spec fn comma_streams(ind: nat, ss: Seq<StreamView>) -> Seq<char>
    decreases ss.len(),
{
    if ss.len() == 0 {
        Seq::empty()
    } else {
        comma_streams(ind, ss.drop_last()) + data_stream_text(ind, ss.last(), true)
    }
}

/// Streams separated by commas.
pub open spec fn streams_text(ind: nat, ss: Seq<StreamView>) -> Seq<char> {
    if ss.len() == 0 {
        Seq::empty()
    } else {
        comma_streams(ind, ss.drop_last()) + data_stream_text(ind, ss.last(), false)
    }
}

/// A `CDmePolygonMeshDataArray` element at depth `ind`.
pub open spec fn data_array_text(
    ind: nat,
    name: Seq<char>,
    id: Seq<char>,
    size: nat,
    ss: Seq<StreamView>,
) -> Seq<char> {
    tabs(ind) + "\""@ + name + "\" \"CDmePolygonMeshDataArray\"\n"@ + line_text(ind, "{"@)
        + prop_text(ind + 1, "id"@, "elementid"@, id) + prop_text(
        ind + 1,
        "size"@,
        "int"@,
        dec_nat(size),
    ) + array_header_text(ind + 1, "streams"@, "element_array"@) + line_text(ind + 1, "["@)
        + streams_text(ind + 2, ss) + line_text(ind + 1, "]"@) + line_text(ind, "}"@)
}

// ─── decimal text ────────────────────────────────────────────────────
fn digit_str(d: u64) -> (r: &'static str)
    requires
        d < 10,
    ensures
        r@ == digit_text(d as int),
{
    if d == 0 {
        "0"
    } else if d == 1 {
        "1"
    } else if d == 2 {
        "2"
    } else if d == 3 {
        "3"
    } else if d == 4 {
        "4"
    } else if d == 5 {
        "5"
    } else if d == 6 {
        "6"
    } else if d == 7 {
        "7"
    } else if d == 8 {
        "8"
    } else {
        "9"
    }
}

fn push_dec(s: &mut String, n: u64)
    ensures
        final(s)@ == old(s)@ + dec_nat(n as nat),
    decreases n,
{
    if n >= 10 {
        push_dec(s, n / 10);
        s.append(digit_str(n % 10));
    } else {
        s.append(digit_str(n));
    }
}

/// The decimal text of an unsigned number.
pub fn usize_text(n: usize) -> (r: String)
    ensures
        r@ == dec_nat(n as nat),
{
    let mut s = String::new();
    push_dec(&mut s, n as u64);
    s
}

/// The decimal text of a signed number.
pub fn i32_text(n: i32) -> (r: String)
    ensures
        r@ == dec_int(n as int),
{
    let mut s = String::new();
    if n < 0 {
        s.append("-");
        let m: i64 = -(n as i64);
        push_dec(&mut s, m as u64);
    } else {
        push_dec(&mut s, n as u64);
    }
    s
}

/// `String::with_capacity`: an empty string (the capacity it reserves is
/// not stated).
#[verifier::external_body]
fn string_with_capacity(capacity: usize) -> (s: String)
    ensures
        s@ == Seq::<char>::empty(),
{
    String::with_capacity(capacity)
}

/// Appending to text that extends `t0` by `s` extends it by `s + p`.
proof fn lemma_extend(t0: Seq<char>, s: Seq<char>, p: Seq<char>)
    ensures
        (t0 + s) + p == t0 + (s + p),
{
    vstd::seq_lib::lemma_concat_associative(t0, s, p);
}

/// A stream's text up to its closing line.
pub open spec fn stream_body(ind: nat, s: StreamView) -> Seq<char> {
    let d = data_stream_text(ind, s, false);
    d.take(d.len() - line_text(ind, "}"@).len())
}

proof fn lemma_stream_close(ind: nat, s: StreamView)
    ensures
        data_stream_text(ind, s, false) == stream_body(ind, s) + line_text(ind, "}"@),
        data_stream_text(ind, s, true) == stream_body(ind, s) + close_text(ind, true),
{
    let p = line_text(ind, "\"CDmePolygonMeshDataStream\""@) + line_text(ind, "{"@) + prop_text(
        ind + 1,
        "id"@,
        "elementid"@,
        s.id,
    ) + prop_text(ind + 1, "name"@, "string"@, s.name + ":"@ + dec_int(s.sem_idx)) + prop_text(
        ind + 1,
        "standardAttributeName"@,
        "string"@,
        s.standard_attr,
    ) + prop_text(ind + 1, "semanticName"@, "string"@, s.semantic) + prop_text(
        ind + 1,
        "semanticIndex"@,
        "int"@,
        dec_int(s.sem_idx),
    ) + prop_text(ind + 1, "vertexBufferLocation"@, "int"@, "0"@) + prop_text(
        ind + 1,
        "dataStateFlags"@,
        "int"@,
        dec_int(s.data_state),
    ) + prop_text(ind + 1, "subdivisionBinding"@, "element"@, ""@) + array_text(
        ind + 1,
        "data"@,
        s.dtype,
        s.data,
    );
    let d = data_stream_text(ind, s, false);
    assert(d == p + line_text(ind, "}"@));
    assert(d.take(d.len() - line_text(ind, "}"@).len()) =~= p);
    assert(data_stream_text(ind, s, true) == p + close_text(ind, true));
}

/// A trailing comma after text that ends with a closing `}` line turns
/// that line into `},`.
proof fn lemma_comma_after_close(x: Seq<char>, ind: nat)
    ensures
        comma_after_last_line(x + line_text(ind, "}"@)) == x + close_text(ind, true),
{
    reveal_strlit("}");
    reveal_strlit("\n");
    reveal_strlit(",");
    let s = x + line_text(ind, "}"@);
    let n = s.len() as int;
    assert(s[n - 1] == '\n');
    assert(n - 1 > 0);
    assert(s[n - 2] == '}');
    assert(ends_full_line(s, n - 1));
    assert(last_full_line_end_below(s, n) == Some(n - 1));
    assert(s.take(n - 1) =~= x + tabs(ind) + "}"@);
    assert(s.skip(n - 1) =~= "\n"@);
    assert(s.take(n - 1) + ","@ + s.skip(n - 1) =~= x + close_text(ind, true));
}

// ─── the writer ──────────────────────────────────────────────────────
/// Text written so far and the current nesting depth.
pub struct KV2Writer {
    buf: String,
    indent: usize,
}

impl KV2Writer {
    /// The text written so far.
    pub closed spec fn text(&self) -> Seq<char> {
        self.buf@
    }

    /// The current nesting depth.
    pub closed spec fn depth(&self) -> nat {
        self.indent as nat
    }

    /// An empty writer at depth 0, with room for `capacity` bytes.
    pub fn new(capacity: usize) -> (w: Self)
        ensures
            w.text() == Seq::<char>::empty(),
            w.depth() == 0,
    {
        KV2Writer { buf: string_with_capacity(capacity), indent: 0 }
    }

    fn push_tabs(&mut self)
        ensures
            final(self).text() == old(self).text() + tabs(old(self).depth()),
            final(self).depth() == old(self).depth(),
    {
        let mut i: usize = 0;
        while i < self.indent
            invariant
                0 <= i <= self.indent,
                self.indent == old(self).indent,
                self.buf@ == old(self).buf@ + tabs(i as nat),
            decreases self.indent - i,
        {
            self.buf.append("\t");
            i += 1;
            proof {
                assert(tabs(i as nat) == tabs((i - 1) as nat) + "\t"@);
                vstd::seq_lib::lemma_concat_associative(
                    old(self).buf@,
                    tabs((i - 1) as nat),
                    "\t"@,
                );
            }
        }
    }

    /// A line at the current depth.
    pub fn w(&mut self, text: &str)
        ensures
            final(self).text() == old(self).text() + line_text(old(self).depth(), text@),
            final(self).depth() == old(self).depth(),
    {
        self.push_tabs();
        self.buf.append(text);
        self.buf.append("\n");
        proof {
            let t = tabs(old(self).depth());
            assert(self.buf@ =~= old(self).buf@ + (t + text@ + "\n"@));
        }
    }

    /// An empty line.
    pub fn blank(&mut self)
        ensures
            final(self).text() == old(self).text() + "\n"@,
            final(self).depth() == old(self).depth(),
    {
        self.buf.append("\n");
    }

    /// A line, then `{`, and one level deeper.
    pub fn begin(&mut self, text: &str)
        requires
            old(self).depth() < usize::MAX,
        ensures
            final(self).text() == old(self).text() + line_text(old(self).depth(), text@)
                + line_text(old(self).depth(), "{"@),
            final(self).depth() == old(self).depth() + 1,
    {
        self.w(text);
        self.w("{");
        self.indent += 1;
    }

    /// One level up, then `}`.
    pub fn end(&mut self)
        requires
            old(self).depth() > 0,
        ensures
            final(self).text() == old(self).text() + line_text(
                (old(self).depth() - 1) as nat,
                "}"@,
            ),
            final(self).depth() == old(self).depth() - 1,
    {
        self.indent -= 1;
        self.w("}");
    }

    /// A property line: `"name" "dtype" "value"`.
    pub fn prop(&mut self, name: &str, dtype: &str, value: &str)
        ensures
            final(self).text() == old(self).text() + prop_text(
                old(self).depth(),
                name@,
                dtype@,
                value@,
            ),
            final(self).depth() == old(self).depth(),
    {
        self.push_tabs();
        self.buf.append("\"");
        self.buf.append(name);
        self.buf.append("\" \"");
        self.buf.append(dtype);
        self.buf.append("\" \"");
        self.buf.append(value);
        self.buf.append("\"\n");
        proof {
            let t = tabs(old(self).depth());
            assert(self.buf@ =~= old(self).buf@ + (t + "\""@ + name@ + "\" \""@ + dtype@
                + "\" \""@ + value@ + "\"\n"@));
        }
    }

    /// An array header and `[`, and one level deeper.
    pub fn begin_array(&mut self, name: &str, dtype: &str)
        requires
            old(self).depth() < usize::MAX,
        ensures
            final(self).text() == old(self).text() + array_header_text(
                old(self).depth(),
                name@,
                dtype@,
            ) + line_text(old(self).depth(), "["@),
            final(self).depth() == old(self).depth() + 1,
    {
        self.push_tabs();
        self.buf.append("\"");
        self.buf.append(name);
        self.buf.append("\" \"");
        self.buf.append(dtype);
        self.buf.append("\" \n");
        proof {
            let t = tabs(old(self).depth());
            assert(self.buf@ =~= old(self).buf@ + (t + "\""@ + name@ + "\" \""@ + dtype@
                + "\" \n"@));
        }
        self.w("[");
        self.indent += 1;
    }

    /// One level up, then `]`.
    pub fn end_array(&mut self)
        requires
            old(self).depth() > 0,
        ensures
            final(self).text() == old(self).text() + line_text(
                (old(self).depth() - 1) as nat,
                "]"@,
            ),
            final(self).depth() == old(self).depth() - 1,
    {
        self.indent -= 1;
        self.w("]");
    }

    /// The last item of an array.
    pub fn array_item(&mut self, value: &str)
        ensures
            final(self).text() == old(self).text() + item_text(old(self).depth(), value@, false),
            final(self).depth() == old(self).depth(),
    {
        self.push_tabs();
        self.buf.append("\"");
        self.buf.append(value);
        self.buf.append("\"\n");
        proof {
            let t = tabs(old(self).depth());
            assert(self.buf@ =~= old(self).buf@ + (t + "\""@ + value@ + "\"\n"@));
        }
    }

    /// An array item followed by a comma.
    pub fn array_item_comma(&mut self, value: &str)
        ensures
            final(self).text() == old(self).text() + item_text(old(self).depth(), value@, true),
            final(self).depth() == old(self).depth(),
    {
        self.push_tabs();
        self.buf.append("\"");
        self.buf.append(value);
        self.buf.append("\",\n");
        proof {
            let t = tabs(old(self).depth());
            assert(self.buf@ =~= old(self).buf@ + (t + "\""@ + value@ + "\",\n"@));
        }
    }

    /// Appends a comma to the last line with something on it: the comma
    /// goes in front of the `\n` that ends that line.  Text in which no
    /// such line ends stays as it is.
    pub fn trailing_comma(&mut self)
        ensures
            final(self).text() == comma_after_last_line(old(self).text()),
            final(self).depth() == old(self).depth(),
    {
        let found = find_last_full_line_end(self.buf.as_str());
        if let Some(pos) = found {
            let n = self.buf.as_str().unicode_len();
            let mut nb = String::from_str(self.buf.as_str().substring_char(0, pos));
            nb.append(",");
            nb.append(self.buf.as_str().substring_char(pos, n));
            proof {
                assert(nb@ =~= old(self).buf@.take(pos as int) + ","@ + old(self).buf@.skip(
                    pos as int,
                ));
            }
            self.buf = nb;
        }
    }

    /// The items of an array, each but the last followed by a comma.
    pub fn write_items(&mut self, items: &Vec<String>)
        ensures
            final(self).text() == old(self).text() + items_text(
                old(self).depth(),
                string_views(items@),
            ),
            final(self).depth() == old(self).depth(),
    {
        let n = items.len();
        let ghost ind = old(self).depth();
        let ghost views = string_views(items@);
        if n == 0 {
            proof {
                assert(views =~= Seq::<Seq<char>>::empty());
                assert(self.text() =~= old(self).text() + Seq::<char>::empty());
            }
            return;
        }
        let mut i: usize = 0;
        while i < n - 1
            invariant
                0 < n,
                0 <= i <= n - 1,
                n == items.len(),
                views == string_views(items@),
                self.depth() == ind,
                self.text() == old(self).text() + comma_items(ind, views.take(i as int)),
            decreases n - i,
        {
            self.array_item_comma(items[i].as_str());
            proof {
                assert(views[i as int] == items@[i as int]@);
                assert(views.take(i + 1).drop_last() =~= views.take(i as int));
                assert(views.take(i + 1).last() == views[i as int]);
                vstd::seq_lib::lemma_concat_associative(
                    old(self).text(),
                    comma_items(ind, views.take(i as int)),
                    item_text(ind, views[i as int], true),
                );
            }
            i += 1;
        }
        self.array_item(items[i].as_str());
        proof {
            assert(views[i as int] == items@[i as int]@);
            assert(views.drop_last() =~= views.take(i as int));
            vstd::seq_lib::lemma_concat_associative(
                old(self).text(),
                comma_items(ind, views.take(i as int)),
                item_text(ind, views[i as int], false),
            );
        }
    }

    /// One `CDmePolygonMeshDataStream` element, closed without a comma.
    pub fn write_data_stream(
        &mut self,
        id: &str,
        name: &str,
        standard_attr: &str,
        semantic: &str,
        sem_idx: i32,
        data_state: i32,
        dtype: &str,
        data: &Vec<String>,
    )
        requires
            old(self).depth() + 2 < usize::MAX,
        ensures
            final(self).text() == old(self).text() + stream_text(
                old(self).depth(),
                id@,
                name@,
                standard_attr@,
                semantic@,
                sem_idx as int,
                data_state as int,
                dtype@,
                string_views(data@),
                false,
            ),
            final(self).depth() == old(self).depth(),
    {
        let ghost d = old(self).depth();
        let ghost e = d + 1;
        let ghost t0 = old(self).text();
        self.begin("\"CDmePolygonMeshDataStream\"");
        let ghost mut acc = line_text(d, "\"CDmePolygonMeshDataStream\""@);
        proof {
            lemma_extend(t0, Seq::empty(), acc);
            assert(t0 + Seq::<char>::empty() =~= t0);
            assert(Seq::<char>::empty() + acc =~= acc);
            lemma_extend(t0, acc, line_text(d, "{"@));
            acc = acc + line_text(d, "{"@);
        }
        self.prop("id", "elementid", id);
        proof {
            let p = prop_text(e, "id"@, "elementid"@, id@);
            lemma_extend(t0, acc, p);
            acc = acc + p;
        }
        let idx = i32_text(sem_idx);
        let mut full_name = String::from_str(name);
        full_name.append(":");
        full_name.append(idx.as_str());
        self.prop("name", "string", full_name.as_str());
        proof {
            let p = prop_text(e, "name"@, "string"@, name@ + ":"@ + dec_int(sem_idx as int));
            lemma_extend(t0, acc, p);
            acc = acc + p;
        }
        self.prop("standardAttributeName", "string", standard_attr);
        proof {
            let p = prop_text(e, "standardAttributeName"@, "string"@, standard_attr@);
            lemma_extend(t0, acc, p);
            acc = acc + p;
        }
        self.prop("semanticName", "string", semantic);
        proof {
            let p = prop_text(e, "semanticName"@, "string"@, semantic@);
            lemma_extend(t0, acc, p);
            acc = acc + p;
        }
        self.prop("semanticIndex", "int", idx.as_str());
        proof {
            let p = prop_text(e, "semanticIndex"@, "int"@, dec_int(sem_idx as int));
            lemma_extend(t0, acc, p);
            acc = acc + p;
        }
        self.prop("vertexBufferLocation", "int", "0");
        proof {
            let p = prop_text(e, "vertexBufferLocation"@, "int"@, "0"@);
            lemma_extend(t0, acc, p);
            acc = acc + p;
        }
        let state = i32_text(data_state);
        self.prop("dataStateFlags", "int", state.as_str());
        proof {
            let p = prop_text(e, "dataStateFlags"@, "int"@, dec_int(data_state as int));
            lemma_extend(t0, acc, p);
            acc = acc + p;
        }
        self.prop("subdivisionBinding", "element", "");
        proof {
            let p = prop_text(e, "subdivisionBinding"@, "element"@, ""@);
            lemma_extend(t0, acc, p);
            acc = acc + p;
        }
        self.write_array("data", dtype, data);
        proof {
            let p = array_text(e, "data"@, dtype@, string_views(data@));
            lemma_extend(t0, acc, p);
            acc = acc + p;
        }
        self.end();
        proof {
            let p = close_text(d, false);
            lemma_extend(t0, acc, p);
            acc = acc + p;
            assert(acc == stream_text(
                d,
                id@,
                name@,
                standard_attr@,
                semantic@,
                sem_idx as int,
                data_state as int,
                dtype@,
                string_views(data@),
                false,
            ));
        }
    }

    /// One `CDmePolygonMeshDataArray` element holding the given streams,
    /// separated by commas.
    #[verifier::rlimit(40)]
    pub fn write_data_array(&mut self, name: &str, id: &str, size: usize, streams: &Vec<DataStream>)
        requires
            old(self).depth() + 4 < usize::MAX,
        ensures
            final(self).text() == old(self).text() + data_array_text(
                old(self).depth(),
                name@,
                id@,
                size as nat,
                stream_views(streams@),
            ),
            final(self).depth() == old(self).depth(),
    {
        let ghost d = old(self).depth();
        let ghost e = d + 1;
        let ghost t0 = old(self).text();
        self.push_tabs();
        self.buf.append("\"");
        self.buf.append(name);
        self.buf.append("\" \"CDmePolygonMeshDataArray\"\n");
        let ghost mut acc = tabs(d);
        proof {
            lemma_extend(t0, acc, "\""@);
            acc = acc + "\""@;
            lemma_extend(t0, acc, name@);
            acc = acc + name@;
            lemma_extend(t0, acc, "\" \"CDmePolygonMeshDataArray\"\n"@);
            acc = acc + "\" \"CDmePolygonMeshDataArray\"\n"@;
        }
        self.w("{");
        self.indent += 1;
        proof {
            lemma_extend(t0, acc, line_text(d, "{"@));
            acc = acc + line_text(d, "{"@);
        }
        self.prop("id", "elementid", id);
        proof {
            let p = prop_text(e, "id"@, "elementid"@, id@);
            lemma_extend(t0, acc, p);
            acc = acc + p;
        }
        let size_text = usize_text(size);
        self.prop("size", "int", size_text.as_str());
        proof {
            let p = prop_text(e, "size"@, "int"@, dec_nat(size as nat));
            lemma_extend(t0, acc, p);
            acc = acc + p;
        }
        self.begin_array("streams", "element_array");
        proof {
            let p = array_header_text(e, "streams"@, "element_array"@);
            lemma_extend(t0, acc, p);
            acc = acc + p;
            lemma_extend(t0, acc, line_text(e, "["@));
            acc = acc + line_text(e, "["@);
        }
        let ghost t1 = self.text();
        let ghost ind = d + 2;
        let ghost views = stream_views(streams@);
        let n = streams.len();
        if n > 0 {
            let mut i: usize = 0;
            while i < n - 1
                invariant
                    0 < n,
                    0 <= i <= n - 1,
                    n == streams.len(),
                    self.depth() == ind,
                    ind == d + 2,
                    d + 4 < usize::MAX,
                    views == stream_views(streams@),
                    self.text() == t1 + comma_streams(ind, views.take(i as int)),
                decreases n - i,
            {
                let s = &streams[i];
                self.write_data_stream(
                    s.id.as_str(),
                    s.name.as_str(),
                    s.standard_attr.as_str(),
                    s.semantic.as_str(),
                    s.sem_idx,
                    s.data_state,
                    s.dtype.as_str(),
                    &s.data,
                );
                let ghost before = self.text();
                self.trailing_comma();
                proof {
                    let c = comma_streams(ind, views.take(i as int));
                    let sv = s@;
                    assert(sv == views[i as int]);
                    lemma_stream_close(ind, sv);
                    let body = stream_body(ind, sv);
                    let close = line_text(ind, "}"@);
                    assert(before == (t1 + c) + (body + close));
                    lemma_extend(t1 + c, body, close);
                    lemma_comma_after_close(t1 + c + body, ind);
                    lemma_extend(t1 + c, body, close_text(ind, true));
                    lemma_extend(t1, c, data_stream_text(ind, sv, true));
                    assert(views.take(i + 1).drop_last() =~= views.take(i as int));
                    assert(views.take(i + 1).last() == sv);
                }
                i += 1;
            }
            let s = &streams[i];
            self.write_data_stream(
                s.id.as_str(),
                s.name.as_str(),
                s.standard_attr.as_str(),
                s.semantic.as_str(),
                s.sem_idx,
                s.data_state,
                s.dtype.as_str(),
                &s.data,
            );
            proof {
                assert(views.drop_last() =~= views.take(i as int));
                assert(views.last() == s@);
                let c = comma_streams(ind, views.take(i as int));
                lemma_extend(t1, c, data_stream_text(ind, s@, false));
            }
        } else {
            proof {
                assert(t1 + streams_text(ind, views) =~= t1);
            }
        }
        proof {
            let p = streams_text(ind, views);
            lemma_extend(t0, acc, p);
            acc = acc + p;
        }
        self.end_array();
        proof {
            let p = line_text(e, "]"@);
            lemma_extend(t0, acc, p);
            acc = acc + p;
        }
        self.end();
        proof {
            let p = line_text(d, "}"@);
            lemma_extend(t0, acc, p);
            acc = acc + p;
            assert(acc == data_array_text(d, name@, id@, size as nat, views));
        }
    }

    /// The text written, handed over.
    pub fn finish(self) -> (s: String)
        ensures
            s@ == self.text(),
    {
        self.buf
    }

    /// A whole array of strings at the current depth.
    pub fn write_array(&mut self, name: &str, dtype: &str, items: &Vec<String>)
        requires
            old(self).depth() < usize::MAX,
        ensures
            final(self).text() == old(self).text() + array_text(
                old(self).depth(),
                name@,
                dtype@,
                string_views(items@),
            ),
            final(self).depth() == old(self).depth(),
    {
        let ghost d = old(self).depth();
        self.begin_array(name, dtype);
        self.write_items(items);
        self.end_array();
        proof {
            let a = array_header_text(d, name@, dtype@);
            let b = line_text(d, "["@);
            let c = items_text(d + 1, string_views(items@));
            let e = line_text(d, "]"@);
            assert(self.text() =~= old(self).text() + (a + b + c + e));
        }
    }
}

/// `end` undoes the step in of `begin`: a writer `w2` got from `w0` by
/// `begin(header)` and then `end()` is back at the depth of `w0`, and has
/// added the header line, `{` and `}`, all at that depth.
pub proof fn lemma_begin_end(w0: KV2Writer, w1: KV2Writer, w2: KV2Writer, header: Seq<char>)
    requires
        w0.depth() < usize::MAX,
        w1.text() == w0.text() + line_text(w0.depth(), header) + line_text(w0.depth(), "{"@),
        w1.depth() == w0.depth() + 1,
        w2.text() == w1.text() + line_text((w1.depth() - 1) as nat, "}"@),
        w2.depth() == w1.depth() - 1,
    ensures
        w2.depth() == w0.depth(),
        w2.text() == w0.text() + line_text(w0.depth(), header) + line_text(w0.depth(), "{"@) + line_text(
            w0.depth(),
            "}"@,
        ),
{
}

} // verus!
