//! The per-host side of a remote run: the host's label, and the stamping of its output
//! lines so that the lines of all hosts can be merged by time.
use regex::Regex;
use vstd::prelude::*;
use vstd::utf8::encode_utf8;
use vstd::utf8::decode_utf8;
use vstd::utf8::is_char_boundary;

verus! {

broadcast use vstd::utf8::encode_utf8_decode_utf8;

/// The number of bytes that a time stamp takes at the start of a line.
pub const STAMP_LEN: usize = 26;

/// Whether character `c` may stand at position `i` of a time stamp
/// `yyyy-mm-dd hh:mm:ss.ffffff`: the separators are fixed, any other character but a
/// line feed fills the rest.
pub open spec fn stamp_char(i: int, c: char) -> bool {
    if i == 4 || i == 7 {
        c == '-'
    } else if i == 13 || i == 16 {
        c == ':'
    } else if i == 19 {
        c == '.'
    } else {
        c != '\n'
    }
}

/// The line starts with a time stamp.
pub open spec fn stamped(s: Seq<char>) -> bool {
    &&& s.len() >= 26
    &&& forall|i: int| 0 <= i < 26 ==> stamp_char(i, #[trigger] s[i])
}

/// The characters of the first `STAMP_LEN` bytes of `s`.
pub open spec fn stamp_of(s: Seq<char>) -> Seq<char> {
    decode_utf8(encode_utf8(s).subrange(0, STAMP_LEN as int))
}

/// The characters after the first `STAMP_LEN` bytes of `s`.
pub open spec fn after_stamp(s: Seq<char>) -> Seq<char> {
    decode_utf8(encode_utf8(s).subrange(STAMP_LEN as int, encode_utf8(s).len() as int))
}

/// The line can be cut after its first `STAMP_LEN` bytes.
pub open spec fn cuttable(s: Seq<char>) -> bool {
    is_char_boundary(encode_utf8(s), STAMP_LEN as int)
}

/// `n` spaces.
pub open spec fn spaces(n: nat) -> Seq<char> {
    Seq::new(n, |i: int| ' ')
}

proof fn lemma_encode_concat(a: Seq<char>, b: Seq<char>)
    ensures
        encode_utf8(a + b) == encode_utf8(a) + encode_utf8(b),
    decreases a.len(),
{
    if a.len() == 0 {
        assert(a + b =~= b);
        assert(encode_utf8(a) =~= Seq::<u8>::empty());
        assert(encode_utf8(a) + encode_utf8(b) =~= encode_utf8(b));
    } else {
        assert((a + b).drop_first() =~= a.drop_first() + b);
        assert((a + b)[0] == a[0]);
        lemma_encode_concat(a.drop_first(), b);
        assert(encode_utf8(a + b) =~= encode_utf8(a) + encode_utf8(b));
    }
}

proof fn lemma_encode_space(a: Seq<char>)
    ensures
        encode_utf8(a.push(' ')).len() == encode_utf8(a).len() + 1,
{
    lemma_encode_concat(a, seq![' ']);
    assert(a + seq![' '] =~= a.push(' '));
    assert(seq![' '].drop_first() =~= Seq::<char>::empty());
    let one = seq![' '];
    assert(one[0] == ' ');
    assert((' ' as u32) <= 0x7F);
    assert(encode_utf8(one.drop_first()) =~= Seq::<u8>::empty());
    assert(encode_utf8(one) == vstd::utf8::encode_scalar(' ' as u32) + encode_utf8(one.drop_first()));
    assert(encode_utf8(one).len() == 1);
}

#[verifier::external_type_specification]
#[verifier::external_body]
pub struct ExRegex(Regex);

/// The compiled pattern of a time stamp at the start of a line.
pub struct StampPattern {
    re: Regex,
}

impl StampPattern {
    /// Relies on regex's `Regex::new`, which compiles this fixed, valid pattern.
    #[verifier::external_body]
    pub fn new() -> (r: Self) {
        StampPattern { re: Regex::new("^....-..-.....:..:..\\.......").unwrap() }
    }

    /// Relies on regex's `Regex::is_match` on the pattern that `new` compiled: `^` anchors
    /// it at the start, and `.` matches any character but a line feed.
    #[verifier::external_body]
    fn matches(&self, line: &str) -> (r: bool)
        ensures
            r == stamped(line@),
    {
        self.re.is_match(line)
    }
}

/// A host to run on: the address to reach it at, and the address that labels its output.
#[derive(Debug, Clone)]
pub struct Node {
    pub main_ip: String,
    pub backplane_ip: String,
}

impl Node {
    /// A host given by one address, which serves for both.
    pub fn from_str(s: &str) -> (r: Node)
        ensures
            r.main_ip@ == s@,
            r.backplane_ip@ == s@,
    {
        Node { main_ip: s.to_owned(), backplane_ip: s.to_owned() }
    }
}

/// The pieces of `s` between the occurrences of `c`; there is one more piece than there
/// are occurrences.
pub open spec fn split_on(s: Seq<char>, c: char) -> Seq<Seq<char>>
    decreases s.len(),
{
    if s.len() == 0 {
        seq![Seq::<char>::empty()]
    } else {
        let rest = split_on(s.drop_first(), c);
        if s[0] == c {
            seq![Seq::<char>::empty()] + rest
        } else {
            rest.update(0, seq![s[0]] + rest[0])
        }
    }
}

/// A line without the carriage return that ended it, if any.
pub open spec fn strip_cr(l: Seq<char>) -> Seq<char> {
    if l.len() > 0 && l.last() == '\r' {
        l.drop_last()
    } else {
        l
    }
}

/// The lines of a text: the pieces between line feeds, each without a carriage return
/// before its line feed; a last line feed ends the last line rather than starting an
/// empty one.
pub open spec fn lines_of(s: Seq<char>) -> Seq<Seq<char>> {
    let pieces = split_on(s, '\n');
    let ended = pieces.drop_last().map_values(|l: Seq<char>| strip_cr(l));
    if pieces.last().len() == 0 {
        ended
    } else {
        ended.push(pieces.last())
    }
}

/// Every line of a node list names at least three fields.
pub open spec fn node_list_ok(text: Seq<char>) -> bool {
    forall|i: int| 0 <= i < lines_of(text).len() ==> #[trigger] split_on(lines_of(text)[i], ' ').len() >= 3
}

/// Relies on std's `str::lines`: the lines of `s` as `lines_of` states them.
#[verifier::external_body]
fn text_lines(s: &str) -> (r: Vec<String>)
    ensures
        r@.map_values(|l: String| l@) == lines_of(s@),
{
    s.lines().map(|l| l.to_string()).collect()
}

/// Relies on std's `str::split` with a space: the pieces between the spaces of `s`.
#[verifier::external_body]
fn space_fields(s: &str) -> (r: Vec<String>)
    ensures
        r@.map_values(|f: String| f@) == split_on(s@, ' '),
{
    s.split(' ').map(|f| f.to_string()).collect()
}

/// The hosts of a node list, one a line: an identifier, then the address that labels
/// the host's output, then the address to reach it at, with a space between fields.
/// `None` where a line has fewer than three fields.
pub fn get_node_list(text: &str) -> (r: Option<Vec<Node>>)
    ensures
        r is Some <==> node_list_ok(text@),
        r matches Some(nodes) ==> {
            &&& nodes@.len() == lines_of(text@).len()
            &&& forall|i: int|
                0 <= i < nodes@.len() ==> {
                    &&& (#[trigger] nodes@[i]).backplane_ip@ == split_on(lines_of(text@)[i], ' ')[1]
                    &&& nodes@[i].main_ip@ == split_on(lines_of(text@)[i], ' ')[2]
                }
        },
{
    let lines = text_lines(text);
    let ghost ls = lines_of(text@);
    let mut nodes: Vec<Node> = Vec::new();
    let mut k: usize = 0;
    while k < lines.len()
        invariant
            lines@.map_values(|l: String| l@) == ls,
            ls == lines_of(text@),
            0 <= k <= lines@.len(),
            nodes@.len() == k,
            forall|j: int| 0 <= j < k ==> #[trigger] split_on(ls[j], ' ').len() >= 3,
            forall|i: int|
                0 <= i < k ==> {
                    &&& (#[trigger] nodes@[i]).backplane_ip@ == split_on(ls[i], ' ')[1]
                    &&& nodes@[i].main_ip@ == split_on(ls[i], ' ')[2]
                },
        decreases lines@.len() - k,
    {
        assert(lines@[k as int]@ == ls[k as int]);
        let fields = space_fields(lines[k].as_str());
        assert(fields@.len() == split_on(ls[k as int], ' ').len());
        if fields.len() < 3 {
            assert(!node_list_ok(text@)) by {
                assert(split_on(lines_of(text@)[k as int], ' ').len() < 3);
            }
            return None;
        }
        assert(fields@[1]@ == split_on(ls[k as int], ' ')[1]);
        assert(fields@[2]@ == split_on(ls[k as int], ' ')[2]);
        nodes.push(Node { main_ip: fields[2].clone(), backplane_ip: fields[1].clone() });
        k = k + 1;
    }
    Some(nodes)
}

/// A host whose output is being read: its label, and the time stamp of its last stamped
/// line, which lines without one take over.
pub struct ActiveJob {
    ident: String,
    stamp: String,
    date: StampPattern,
}

impl ActiveJob {
    /// The label put on every line of this host.
    pub closed spec fn ident(&self) -> Seq<char> {
        self.ident@
    }

    /// The time stamp given to a line that has none.
    pub closed spec fn stamp(&self) -> Seq<char> {
        self.stamp@
    }

    /// A job labelled `ident`; until a stamped line comes, lines take the zero time.
    pub fn new(ident: String) -> (r: Self)
        ensures
            r.ident() == ident@,
            r.stamp() == "0000-00-00 00:00:00.000000"@,
    {
        ActiveJob { ident, stamp: "0000-00-00 00:00:00.000000".to_owned(), date: StampPattern::new() }
    }

    /// The label, as text.
    pub fn ident_text(&self) -> (r: String)
        ensures
            r@ == self.ident(),
    {
        self.ident.clone()
    }

    /// Pads the label with spaces to `size` bytes; the label may not be longer.
    pub fn pad_ident(&mut self, size: usize)
        requires
            encode_utf8(old(self).ident()).len() <= size,
        ensures
            final(self).stamp() == old(self).stamp(),
            final(self).ident() == old(self).ident() + spaces(
                (size - encode_utf8(old(self).ident()).len()) as nat,
            ),
    {
        let ghost start = self.ident@;
        while self.ident.as_str().len() < size
            invariant
                self.stamp@ == old(self).stamp(),
                start == old(self).ident(),
                encode_utf8(self.ident@).len() <= size,
                encode_utf8(self.ident@).len() >= encode_utf8(start).len(),
                self.ident@ == start + spaces((encode_utf8(self.ident@).len() - encode_utf8(start).len()) as nat),
            decreases size - encode_utf8(self.ident@).len(),
        {
            let ghost before = self.ident@;
            proof {
                reveal_strlit(" ");
                lemma_encode_space(before);
            }
            self.ident.append(" ");
            proof {
                assert(self.ident@ == before.push(' '));
                assert(self.ident@ =~= start + spaces(
                    (encode_utf8(self.ident@).len() - encode_utf8(start).len()) as nat,
                ));
            }
        }
    }

    /// The line as it goes into the merged output: a stamped line gets the label after its
    /// stamp and lends its stamp to the lines after it; a line without one gets the last
    /// stamp and the label in front.
    pub fn collate_line(&mut self, line: &str) -> (r: String)
        ensures
            final(self).ident() == old(self).ident(),
            stamped(line@) && cuttable(line@) ==> {
                &&& r@ == stamp_of(line@) + seq![' '] + old(self).ident() + after_stamp(line@)
                &&& final(self).stamp() == stamp_of(line@)
            },
            !(stamped(line@) && cuttable(line@)) ==> {
                &&& r@ == old(self).stamp() + seq![' '] + old(self).ident() + seq![' '] + line@
                &&& final(self).stamp() == old(self).stamp()
            },
    {
        proof {
            reveal_strlit(" ");
        }
        if self.date.matches(line) && line.is_char_boundary(STAMP_LEN) {
            let (part1, part2) = line.split_at(STAMP_LEN);
            self.stamp = part1.to_owned();
            let mut r = part1.to_owned();
            r.append(" ");
            r.append(self.ident.as_str());
            r.append(part2);
            r
        } else {
            let mut r = self.stamp.clone();
            r.append(" ");
            r.append(self.ident.as_str());
            r.append(" ");
            r.append(line);
            r
        }
    }
}

} // verus!
