//! An OKF concept document: one markdown file, read as a YAML [`Frontmatter`]
//! block and a markdown [`Body`].
//!
//! Parse leniently, judge strictly: reading fails only where the two parts
//! cannot be told apart, or the metadata block cannot be read as metadata at
//! all. Whatever the block says is never a parse failure, and a field of the
//! wrong shape simply reads as absent. Keys the accessors do not name survive
//! in the block's own text, [`Frontmatter::source`].

use vstd::prelude::*;
use crate::yaml::{Yaml, lookup, lookup_in, parse_yaml, text_of, yaml_load};
use crate::text::{frontmatter_of, trim_end};
use crate::text::{append, chars_of, close_from, fence_at, find_close, find_nl, is_fence, lemma_close_from_bounds, lemma_next_nl_bounds, line_next, next_nl, owned};

verus! {

/// One OKF concept document: its frontmatter and its body.
#[derive(Debug, PartialEq)]
pub struct Concept {
    frontmatter: Frontmatter,
    body: Body,
}

/// The YAML metadata block at the top of a concept document: its text as
/// written, and the mapping it parses to.
#[derive(Debug, PartialEq)]
pub struct Frontmatter {
    source: String,
    fields: Vec<(Yaml, Yaml)>,
}

/// Everything in a concept document after the frontmatter, verbatim.
#[derive(Debug, Clone, PartialEq, Eq)]
pub struct Body(String);

/// The ways a markdown file can fail to be a concept document. All of them
/// are about shape, none about content.
#[derive(Debug, Clone, PartialEq, Eq)]
pub enum ConceptError {
    /// The file does not open with a `---` fence.
    MissingFrontmatter,
    /// The opening `---` fence is never closed.
    UnterminatedFrontmatter,
    /// The frontmatter is not parseable YAML; carries the parser's message.
    MalformedFrontmatter(String),
    /// The frontmatter parses, but as a scalar or a list.
    FrontmatterNotAMapping,
}

/// A concept error, by its characters.
pub enum ConceptErrorV {
    MissingFrontmatter,
    UnterminatedFrontmatter,
    MalformedFrontmatter(Seq<char>),
    FrontmatterNotAMapping,
}

impl View for ConceptError {
    type V = ConceptErrorV;

    open spec fn view(&self) -> ConceptErrorV {
        match self {
            ConceptError::MissingFrontmatter => ConceptErrorV::MissingFrontmatter,
            ConceptError::UnterminatedFrontmatter => ConceptErrorV::UnterminatedFrontmatter,
            ConceptError::MalformedFrontmatter(e) => ConceptErrorV::MalformedFrontmatter(e@),
            ConceptError::FrontmatterNotAMapping => ConceptErrorV::FrontmatterNotAMapping,
        }
    }
}

/// A frontmatter block, by its text and its entries.
pub struct FrontmatterV {
    pub source: Seq<char>,
    pub fields: Seq<(Yaml, Yaml)>,
}

impl View for Frontmatter {
    type V = FrontmatterV;

    closed spec fn view(&self) -> FrontmatterV {
        FrontmatterV { source: self.source@, fields: self.fields@ }
    }
}

/// A concept document, by its frontmatter and the characters of its body.
pub struct ConceptV {
    pub frontmatter: FrontmatterV,
    pub body: Seq<char>,
}

impl View for Concept {
    type V = ConceptV;

    closed spec fn view(&self) -> ConceptV {
        ConceptV { frontmatter: self.frontmatter@, body: self.body@ }
    }
}

impl View for Body {
    type V = Seq<char>;

    closed spec fn view(&self) -> Seq<char> {
        self.0@
    }
}

/// Where a document's two parts lie: the frontmatter text between the opening
/// fence (the first line) and the first later `---` line, and everything after
/// that closing line as the body. Both fences tolerate trailing whitespace.
pub open spec fn split_of(s: Seq<char>) -> Result<(Seq<char>, Seq<char>), ConceptErrorV> {
    if !is_fence(s.subrange(0, next_nl(s, 0))) {
        Err(ConceptErrorV::MissingFrontmatter)
    } else {
        let start = line_next(s, 0);
        match close_from(s, start) {
            None => Err(ConceptErrorV::UnterminatedFrontmatter),
            Some(c) => Ok((s.subrange(start, c), s.subrange(line_next(s, c), s.len() as int))),
        }
    }
}

/// The block a parsed frontmatter value reads as: a mapping's entries, no
/// entries for an empty block (which parses as null), or why it is not
/// metadata.
pub open spec fn block_of(
    source: Seq<char>,
    value: Result<Yaml, Seq<char>>,
) -> Result<FrontmatterV, ConceptErrorV> {
    match value {
        Err(e) => Err(ConceptErrorV::MalformedFrontmatter(e)),
        Ok(Yaml::Mapping(m)) => Ok(FrontmatterV { source, fields: m@ }),
        Ok(Yaml::Null) => Ok(FrontmatterV { source, fields: seq![] }),
        Ok(_) => Err(ConceptErrorV::FrontmatterNotAMapping),
    }
}

/// A concept document read from the text of one markdown file.
pub open spec fn concept_of(s: Seq<char>) -> Result<ConceptV, ConceptErrorV> {
    match split_of(s) {
        Err(e) => Err(e),
        Ok((front, body)) => match block_of(front, yaml_load(front)) {
            Err(e) => Err(e),
            Ok(f) => Ok(ConceptV { frontmatter: f, body }),
        },
    }
}

/// The string at `key`, when the block holds a string there.
pub open spec fn field_text(fields: Seq<(Yaml, Yaml)>, key: Seq<char>) -> Option<Seq<char>> {
    text_of(lookup(fields, key))
}

/// The `tags` list, when it is a list of strings and nothing else.
pub open spec fn tags_of(fields: Seq<(Yaml, Yaml)>) -> Option<Seq<Seq<char>>> {
    match lookup(fields, "tags"@) {
        Some(Yaml::Sequence(items)) => if forall|k: int| 0 <= k < items@.len() ==> #[trigger] items@[k] is Text {
            Some(items@.map_values(|y: Yaml| y->Text_0@))
        } else {
            None
        },
        _ => None,
    }
}

/// A borrowed optional string, by its characters.
pub open spec fn str_view(o: Option<&str>) -> Option<Seq<char>> {
    match o {
        Some(s) => Some(s@),
        None => None,
    }
}

/// How a concept error reads.
pub open spec fn error_text(e: ConceptErrorV) -> Seq<char> {
    match e {
        ConceptErrorV::MissingFrontmatter => "no frontmatter: the file does not open with a `---` fence"@,
        ConceptErrorV::UnterminatedFrontmatter => "unterminated frontmatter: the opening `---` fence is never closed"@,
        ConceptErrorV::MalformedFrontmatter(m) => "frontmatter is not parseable YAML: "@ + m,
        ConceptErrorV::FrontmatterNotAMapping => "frontmatter is not a mapping, so it declares no fields"@,
    }
}

/// Splits a source into its frontmatter text and its body.
pub fn split(source: &str) -> (r: Result<(&str, &str), ConceptError>)
    ensures
        match r {
            Ok((f, b)) => split_of(source@) == Ok::<(Seq<char>, Seq<char>), ConceptErrorV>((f@, b@)),
            Err(e) => split_of(source@) == Err::<(Seq<char>, Seq<char>), ConceptErrorV>(e@),
        },
{
    let cs = chars_of(source);
    let e = find_nl(&cs, 0);
    if !fence_at(&cs, 0, e) {
        return Err(ConceptError::MissingFrontmatter);
    }
    let start = if e < cs.len() { e + 1 } else { e };
    match find_close(&cs, start) {
        None => Err(ConceptError::UnterminatedFrontmatter),
        Some(c) => {
            let f = find_nl(&cs, c);
            let b = if f < cs.len() { f + 1 } else { f };
            Ok((source.substring_char(start, c), source.substring_char(b, cs.len())))
        },
    }
}

impl Concept {
    /// Reads a concept document from the text of one markdown file: the
    /// text between the opening and closing fences is parsed as YAML, and
    /// everything after the closing fence is the body, verbatim.
    pub fn parse(source: &str) -> (r: Result<Concept, ConceptError>)
        ensures
            match r {
                Ok(c) => concept_of(source@) == Ok::<ConceptV, ConceptErrorV>(c@),
                Err(e) => concept_of(source@) == Err::<ConceptV, ConceptErrorV>(e@),
            },
    {
        match split(source) {
            Err(e) => Err(e),
            Ok((front, body)) => match Frontmatter::parse(front) {
                Err(e) => Err(e),
                Ok(f) => Ok(Concept { frontmatter: f, body: Body(owned(body)) }),
            },
        }
    }

    /// The document's frontmatter.
    pub fn frontmatter(&self) -> (r: &Frontmatter)
        ensures
            r@ == self@.frontmatter,
    {
        &self.frontmatter
    }

    /// The document's body.
    pub fn body(&self) -> (r: &Body)
        ensures
            r@ == self@.body,
    {
        &self.body
    }
}

impl Frontmatter {
    /// Parses a frontmatter block from the YAML text between the fences.
    fn parse(source: &str) -> (r: Result<Frontmatter, ConceptError>)
        ensures
            match r {
                Ok(f) => block_of(source@, yaml_load(source@)) == Ok::<FrontmatterV, ConceptErrorV>(f@),
                Err(e) => block_of(source@, yaml_load(source@)) == Err::<FrontmatterV, ConceptErrorV>(e@),
            },
    {
        Frontmatter::from_parsed(source, parse_yaml(source))
    }

    /// The block a frontmatter text reads as, given what the YAML parser made
    /// of that text.
    pub fn from_parsed(source: &str, value: Result<Yaml, String>) -> (r: Result<Frontmatter, ConceptError>)
        ensures
            match r {
                Ok(f) => block_of(
                    source@,
                    match value {
                        Ok(v) => Ok(v),
                        Err(m) => Err(m@),
                    },
                ) == Ok::<FrontmatterV, ConceptErrorV>(f@),
                Err(e) => block_of(
                    source@,
                    match value {
                        Ok(v) => Ok(v),
                        Err(m) => Err(m@),
                    },
                ) == Err::<FrontmatterV, ConceptErrorV>(e@),
            },
    {
        match value {
            Err(m) => Err(ConceptError::MalformedFrontmatter(m)),
            Ok(Yaml::Mapping(m)) => Ok(Frontmatter { source: owned(source), fields: m }),
            Ok(Yaml::Null) => Ok(Frontmatter { source: owned(source), fields: Vec::new() }),
            Ok(_) => Err(ConceptError::FrontmatterNotAMapping),
        }
    }

    /// The string at `key`, if the block holds a string there.
    fn string(&self, key: &str) -> (r: Option<&str>)
        ensures
            str_view(r) == field_text(self@.fields, key@),
    {
        match lookup_in(&self.fields, key) {
            Some(Yaml::Text(s)) => Some(s.as_str()),
            _ => None,
        }
    }

    /// `type`: the one required field. Named `concept_type` because `type`
    /// is a keyword; `None` means the document states no type.
    pub fn concept_type(&self) -> (r: Option<&str>)
        ensures
            str_view(r) == field_text(self@.fields, "type"@),
    {
        self.string("type")
    }

    /// `title`: the human-readable display name.
    pub fn title(&self) -> (r: Option<&str>)
        ensures
            str_view(r) == field_text(self@.fields, "title"@),
    {
        self.string("title")
    }

    /// `description`: one sentence summarizing the concept.
    pub fn description(&self) -> (r: Option<&str>)
        ensures
            str_view(r) == field_text(self@.fields, "description"@),
    {
        self.string("description")
    }

    /// `resource`: a URI for the asset the concept describes.
    pub fn resource(&self) -> (r: Option<&str>)
        ensures
            str_view(r) == field_text(self@.fields, "resource"@),
    {
        self.string("resource")
    }

    /// `timestamp`: the last meaningful change, exactly as written.
    pub fn timestamp(&self) -> (r: Option<&str>)
        ensures
            str_view(r) == field_text(self@.fields, "timestamp"@),
    {
        self.string("timestamp")
    }

    /// `tags`: the list of short strings, or `None` when the key is absent or
    /// is not a list of strings only (a non-string entry is not dropped
    /// silently: the whole list reads as absent).
    pub fn tags(&self) -> (r: Option<Vec<&str>>)
        ensures
            match r {
                Some(v) => tags_of(self@.fields) == Some(v@.map_values(|s: &str| s@)),
                None => tags_of(self@.fields) is None,
            },
    {
        match lookup_in(&self.fields, "tags") {
            Some(Yaml::Sequence(items)) => {
                let mut out: Vec<&str> = Vec::new();
                let mut k: usize = 0;
                while k < items.len()
                    invariant
                        k <= items@.len(),
                        lookup(self@.fields, "tags"@) == Some(Yaml::Sequence(*items)),
                        forall|l: int| 0 <= l < k ==> #[trigger] items@[l] is Text,
                        out@.map_values(|s: &str| s@) =~= items@.take(k as int).map_values(|y: Yaml| y->Text_0@),
                    decreases items.len() - k,
                {
                    let ghost prev = out@;
                    match &items[k] {
                        Yaml::Text(s) => {
                            out.push(s.as_str());
                            proof {
                                assert(out@.map_values(|s: &str| s@) =~= prev.map_values(|s: &str| s@).push(s@));
                                assert(items@.take(k + 1).map_values(|y: Yaml| y->Text_0@) =~= items@.take(
                                    k as int,
                                ).map_values(|y: Yaml| y->Text_0@).push(s@));
                            }
                        },
                        _ => {
                            return None;
                        },
                    }
                    proof {
                        assert(items@.take(k + 1) =~= items@.take(k as int).push(items@[k as int]));
                    }
                    k = k + 1;
                }
                proof {
                    assert(items@.take(items@.len() as int) =~= items@);
                }
                Some(out)
            },
            _ => None,
        }
    }

    /// The frontmatter exactly as written, fences excluded: extension keys
    /// survive here.
    pub fn source(&self) -> (r: &str)
        ensures
            r@ == self@.source,
    {
        self.source.as_str()
    }
}

impl Body {
    /// The body text as written.
    pub fn as_str(&self) -> (r: &str)
        ensures
            r@ == self@,
    {
        self.0.as_str()
    }
}

impl ConceptError {
    /// The error as one line of text.
    pub fn to_string(&self) -> (r: String)
        ensures
            r@ == error_text(self@),
    {
        match self {
            ConceptError::MissingFrontmatter => owned("no frontmatter: the file does not open with a `---` fence"),
            ConceptError::UnterminatedFrontmatter => owned(
                "unterminated frontmatter: the opening `---` fence is never closed",
            ),
            ConceptError::MalformedFrontmatter(m) => {
                let mut s = owned("frontmatter is not parseable YAML: ");
                append(&mut s, m.as_str());
                s
            },
            ConceptError::FrontmatterNotAMapping => owned("frontmatter is not a mapping, so it declares no fields"),
        }
    }
}


/// Nothing of a concept document is lost in the split: it is its opening
/// fence line, its frontmatter, its closing fence line and its body, in that
/// order. The opening fence is the first line, and the closing fence is a
/// fence line too.
pub proof fn lemma_split_covers_source(s: Seq<char>)
    requires
        split_of(s) is Ok,
    ensures
        ({
            let (front, body) = split_of(s)->Ok_0;
            let start = line_next(s, 0);
            let c = close_from(s, start)->Some_0;
            &&& is_fence(s.subrange(0, next_nl(s, 0)))
            &&& is_fence(s.subrange(c, next_nl(s, c)))
            &&& s =~= s.subrange(0, start) + front + s.subrange(c, line_next(s, c)) + body
        }),
{
    let start = line_next(s, 0);
    lemma_next_nl_bounds(s, 0);
    lemma_close_from_bounds(s, start);
    let c = close_from(s, start)->Some_0;
    lemma_next_nl_bounds(s, c);
    lemma_close_from_fence(s, start);
}

/// What `close_from` finds is a fence line.
pub proof fn lemma_close_from_fence(s: Seq<char>, p: int)
    requires
        close_from(s, p) is Some,
    ensures
        is_fence(s.subrange(close_from(s, p)->Some_0, next_nl(s, close_from(s, p)->Some_0))),
    decreases s.len() - p,
{
    if 0 <= p < s.len() && !is_fence(s.subrange(p, next_nl(s, p))) && next_nl(s, p) < s.len() {
        lemma_next_nl_bounds(s, p);
        lemma_close_from_fence(s, next_nl(s, p) + 1);
    }
}


/// What `close_from` finds starts a line, at or after where it began.
proof fn lemma_close_from_line_start(s: Seq<char>, p: int)
    requires
        close_from(s, p) is Some,
    ensures
        p <= close_from(s, p)->Some_0,
        close_from(s, p)->Some_0 == p || s[close_from(s, p)->Some_0 - 1] == '\n',
    decreases s.len() - p,
{
    if 0 <= p < s.len() && !is_fence(s.subrange(p, next_nl(s, p))) && next_nl(s, p) < s.len() {
        lemma_next_nl_bounds(s, p);
        lemma_close_from_line_start(s, next_nl(s, p) + 1);
    }
}

/// What `close_from` passes over is no fence: every line starting at or
/// after `p` and before the fence it finds (every one, when it finds none).
proof fn lemma_close_from_skips(s: Seq<char>, p: int, q: int)
    requires
        0 <= p <= q < s.len(),
        q == p || s[q - 1] == '\n',
        match close_from(s, p) {
            Some(c) => q < c,
            None => true,
        },
    ensures
        !is_fence(s.subrange(q, next_nl(s, q))),
    decreases s.len() - p,
{
    if q > p {
        lemma_next_nl_bounds(s, p);
        assert(q - 1 >= next_nl(s, p));
        lemma_close_from_skips(s, next_nl(s, p) + 1, q);
    }
}

/// Whether `q` starts a line of `s`.
pub open spec fn line_start(s: Seq<char>, q: int) -> bool {
    0 <= q < s.len() && (q == 0 || s[q - 1] == '\n')
}

/// How a document splits, line by line: it has no frontmatter exactly when its
/// first line (none, for an empty text) is not a `---` fence; the fence is
/// unterminated exactly when no later line is one; and otherwise the
/// frontmatter runs to the first later fence line, so no line of it is a
/// fence.
pub proof fn lemma_split_by_lines(s: Seq<char>)
    ensures
        split_of(s) == Err::<(Seq<char>, Seq<char>), ConceptErrorV>(ConceptErrorV::MissingFrontmatter)
            <==> !is_fence(s.subrange(0, next_nl(s, 0))),
        split_of(s) == Err::<(Seq<char>, Seq<char>), ConceptErrorV>(ConceptErrorV::UnterminatedFrontmatter)
            <==> (is_fence(s.subrange(0, next_nl(s, 0))) && forall|q: int|
            #![trigger line_start(s, q)]
            line_start(s, q) && q >= line_next(s, 0) ==> !is_fence(s.subrange(q, next_nl(s, q)))),
        split_of(s) is Ok ==> forall|q: int|
            #![trigger line_start(s, q)]
            line_start(s, q) && line_next(s, 0) <= q < close_from(s, line_next(s, 0))->Some_0
                ==> !is_fence(s.subrange(q, next_nl(s, q))),
{
    let start = line_next(s, 0);
    lemma_next_nl_bounds(s, 0);
    if is_fence(s.subrange(0, next_nl(s, 0))) {
        match close_from(s, start) {
            None => {
                assert forall|q: int|
                    #![trigger line_start(s, q)]
                    line_start(s, q) && q >= start implies !is_fence(s.subrange(q, next_nl(s, q))) by {
                    if q > start {
                        assert(q != 0);
                    } else {
                        assert(q == start);
                    }
                    lemma_close_from_skips(s, start, q);
                }
            },
            Some(c) => {
                lemma_close_from_line_start(s, start);
                lemma_close_from_bounds(s, start);
                lemma_close_from_fence(s, start);
                assert(line_start(s, c)) by {
                    if c == start {
                        assert(s[start - 1] == '\n');
                    }
                }
                assert forall|q: int|
                    #![trigger line_start(s, q)]
                    line_start(s, q) && start <= q < c implies !is_fence(s.subrange(q, next_nl(s, q))) by {
                    if q > start {
                        assert(q != 0);
                    }
                    lemma_close_from_skips(s, start, q);
                }
            },
        }
    }
}

/// A norm file's frontmatter is found by the same lines as a concept
/// document's: its first line is a `---` fence once trailing whitespace (the
/// `\r` of a CRLF line among it) is dropped, and a later line is a fence too.
/// It is found exactly when the concept split succeeds, and it is the same
/// text the split takes as the frontmatter: everything from the second line
/// up to the first later fence line, so that no line of it is a fence.
pub proof fn lemma_frontmatter_by_lines(s: Seq<char>)
    ensures
        frontmatter_of(s) is Some <==> split_of(s) is Ok,
        split_of(s) is Ok ==> frontmatter_of(s) == Some(split_of(s)->Ok_0.0),
        frontmatter_of(s) is Some <==> (trim_end(s.subrange(0, next_nl(s, 0))) == seq!['-', '-', '-'] && exists|q: int|
            #![trigger line_start(s, q)]
            line_start(s, q) && q >= line_next(s, 0) && trim_end(s.subrange(q, next_nl(s, q))) == seq![
                '-',
                '-',
                '-',
            ]),
        frontmatter_of(s) is Some ==> exists|c: int|
            #![trigger line_start(s, c)]
            {
                &&& line_start(s, c) && c >= line_next(s, 0)
                &&& trim_end(s.subrange(c, next_nl(s, c))) == seq!['-', '-', '-']
                &&& frontmatter_of(s)->Some_0 == s.subrange(line_next(s, 0), c)
                &&& forall|q: int|
                    #![trigger line_start(s, q)]
                    line_start(s, q) && line_next(s, 0) <= q < c ==> trim_end(s.subrange(q, next_nl(s, q)))
                        != seq!['-', '-', '-']
            },
{
    lemma_split_by_lines(s);
    lemma_next_nl_bounds(s, 0);
    let e = next_nl(s, 0);
    let start = line_next(s, 0);
    if is_fence(s.subrange(0, e)) && e >= s.len() {
        lemma_close_from_bounds(s, s.len() as int);
        assert(close_from(s, start) is None);
    }
    if frontmatter_of(s) is Some {
        lemma_close_from_line_start(s, start);
        lemma_close_from_bounds(s, start);
        lemma_close_from_fence(s, start);
        let c = close_from(s, start)->Some_0;
        assert(line_start(s, c)) by {
            if c == start {
                assert(s[start - 1] == '\n');
            }
        }
    }
}

/// A fence may carry trailing whitespace: `---` followed by any run of
/// whitespace (the `\r` a CRLF file leaves at the end of each line among it)
/// is a fence line, for the opening fence and the closing one alike.
pub proof fn lemma_fence_with_trailing_space(w: Seq<char>)
    requires
        forall|i: int| 0 <= i < w.len() ==> crate::text::is_ws(#[trigger] w[i]),
    ensures
        trim_end(seq!['-', '-', '-'] + w) == seq!['-', '-', '-'],
        is_fence(seq!['-', '-', '-'] + w),
    decreases w.len(),
{
    let f = seq!['-', '-', '-'];
    if w.len() == 0 {
        assert(f + w =~= f);
        assert(!crate::text::is_ws('-'));
    } else {
        assert((f + w).drop_last() =~= f + w.drop_last());
        assert((f + w).last() == w.last());
        assert(crate::text::is_ws(w[w.len() - 1]));
        lemma_fence_with_trailing_space(w.drop_last());
    }
}

} // verus!
