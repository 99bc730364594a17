//! Where in the ledger a request points, and how that is spelled in a URL.

use vstd::prelude::*;
use vstd::utf8::{decode_utf8, encode_utf8, encode_utf8_decode_utf8};

use crate::msg::NamespaceKey;
use crate::path::{a_path_reads_back, path_of};
use crate::subkey::{copy_first, path_text, step_text, steps, Step, Subkey, SubkeyPath};
use crate::text::{append, append_chars, text_of};
use crate::web::error::Error;
use crate::web::walk::text_view;

verus! {

/// Where the URL begins for every ledger location.
pub const PREFIX: &'static str = "/ns/";

/// A hex digit, in capitals.
pub open spec fn capital_hex(d: int) -> char {
    if d < 10 {
        (d + 48) as char
    } else {
        (d + 55) as char
    }
}

/// A byte as a URL escapes it.
pub open spec fn escape(byte: u8) -> Seq<char> {
    seq!['%', capital_hex(byte as int / 16), capital_hex(byte as int % 16)]
}

/// `percent_encoding::percent_encode_byte`: a byte as a percent sign and
/// its two hex digits in capitals, whichever byte it is.
#[verifier::external_body]
fn percent_encode_byte(byte: u8) -> (text: &'static str)
    ensures
        text@ == escape(byte),
{
    percent_encoding::percent_encode_byte(byte)
}

/// Whether a byte is escaped in a URL segment: what can't sit in a path
/// unencoded, plus the brackets and quotes a path spells indices and odd
/// keys with.
pub open spec fn is_escaped(byte: u8) -> bool {
    ||| byte < 0x21
    ||| byte >= 0x7f
    ||| byte == 0x22
    ||| byte == 0x23
    ||| byte == 0x25
    ||| byte == 0x26
    ||| byte == 0x27
    ||| byte == 0x2b
    ||| byte == 0x2f
    ||| byte == 0x3c
    ||| byte == 0x3e
    ||| byte == 0x3f
    ||| 0x5b <= byte <= 0x5e
    ||| byte == 0x60
    ||| 0x7b <= byte <= 0x7d
}

/// A byte as a URL segment spells it.
pub open spec fn byte_text(byte: u8) -> Seq<char> {
    if is_escaped(byte) {
        escape(byte)
    } else {
        seq![byte as char]
    }
}

/// Bytes as a URL segment spells them.
pub open spec fn segment_of(bytes: Seq<u8>) -> Seq<char>
    decreases bytes.len(),
{
    if bytes.len() == 0 {
        Seq::empty()
    } else {
        byte_text(bytes[0]) + segment_of(bytes.skip(1))
    }
}

/// Text as a URL segment spells it: its UTF-8 bytes, what a path can't hold
/// escaped.
pub open spec fn segment_text(text: Seq<char>) -> Seq<char> {
    segment_of(encode_utf8(text))
}

fn append_segment(line: &mut Vec<char>, text: &str)
    ensures
        final(line)@ == old(line)@ + segment_text(text@),
{
    let bytes = text.as_bytes();
    let n: usize = bytes.len();
    let mut i: usize = 0;
    let ghost before = line@;
    assert(bytes@.skip(0) =~= bytes@);
    while i < n
        invariant
            i <= n == bytes@.len(),
            line@ + segment_of(bytes@.skip(i as int)) == before + segment_of(bytes@),
        decreases n - i,
    {
        let b: u8 = bytes[i];
        let ghost so_far = line@;
        if b < 0x21 || b >= 0x7f || b == 0x22 || b == 0x23 || b == 0x25 || b == 0x26 || b == 0x27
            || b == 0x2b || b == 0x2f || b == 0x3c || b == 0x3e || b == 0x3f || (0x5b <= b && b
            <= 0x5e) || b == 0x60 || (0x7b <= b && b <= 0x7d) {
            append(line, percent_encode_byte(b));
        } else {
            line.push(b as char);
        }
        proof {
            let rest = bytes@.skip(i as int);
            assert(rest[0] == b);
            assert(rest.skip(1) =~= bytes@.skip(i + 1));
            assert(line@ =~= so_far + byte_text(b));
            assert(line@ + segment_of(bytes@.skip(i + 1)) =~= so_far + segment_of(rest));
        }
        i += 1;
    }
    assert(line@ + segment_of(bytes@.skip(i as int)) =~= line@);
}

/// A namespace, and optionally a path inside it.
#[derive(Debug, PartialEq, Eq)]
pub struct Location {
    pub key: NamespaceKey,
    pub path: Option<SubkeyPath>,
}

/// Which place a location is.
pub struct Place {
    pub key: Seq<char>,
    pub path: Seq<Step>,
}

impl View for Location {
    type V = Place;

    open spec fn view(&self) -> Place {
        Place {
            key: self.key@,
            path: match self.path {
                Some(path) => path@,
                None => Seq::empty(),
            },
        }
    }
}

impl Place {
    /// The URL the place is browsed at.
    pub open spec fn url(self) -> Seq<char> {
        let key = "/ns/"@ + segment_text(self.key);
        if self.path.len() == 0 {
            key
        } else {
            key + seq!['/'] + segment_text(path_text(self.path))
        }
    }

    /// One level down, at `step`.
    pub open spec fn child(self, step: Step) -> Place {
        Place { key: self.key, path: self.path.push(step) }
    }

    /// One level up; none from a namespace's root.
    pub open spec fn parent(self) -> Option<Place> {
        if self.path.len() == 0 {
            None
        } else {
            Some(Place { key: self.key, path: self.path.drop_last() })
        }
    }

    /// The way here: the namespace, then one place per step.
    pub open spec fn crumbs(self) -> Seq<Place> {
        Seq::new(self.path.len() + 1, |i: int| Place { key: self.key, path: self.path.take(i) })
    }

    /// The last step here.
    pub open spec fn name(self) -> Seq<char> {
        if self.path.len() == 0 {
            self.key
        } else {
            step_text(self.path.last())
        }
    }

    /// The namespace, then the path as it is written.
    pub open spec fn text(self) -> Seq<char> {
        if self.path.len() == 0 {
            self.key
        } else {
            self.key + " › "@ + path_text(self.path)
        }
    }
}

/// Each location's place.
pub open spec fn places(locations: Seq<Location>) -> Seq<Place> {
    locations.map_values(|location: Location| location@)
}

impl Clone for Location {
    fn clone(&self) -> (copy: Self)
        ensures
            copy@ == self@,
            self.wf() ==> copy.wf(),
    {
        let path = match &self.path {
            Some(path) => Some(path.clone()),
            None => None,
        };
        Location { key: self.key.clone(), path }
    }
}

/// The location of the first `n` steps of `segments` in `key`.
fn at_first(key: &NamespaceKey, segments: &Vec<Subkey>, n: usize) -> (location: Location)
    requires
        n <= segments@.len(),
    ensures
        location.wf(),
        location@ == (Place { key: key@, path: steps(segments@).take(n as int) }),
{
    if n == 0 {
        assert(steps(segments@).take(0) =~= Seq::<Step>::empty());
        Location { key: key.clone(), path: None }
    } else {
        Location { key: key.clone(), path: Some(SubkeyPath { segments: copy_first(segments, n) }) }
    }
}

impl Location {
    /// Whether the path, where there is one, has a step.
    pub open spec fn wf(&self) -> bool {
        self.path matches Some(path) ==> path.wf()
    }

    /// The value `path` addresses in `key`; the namespace itself for `None`.
    pub fn new(key: NamespaceKey, path: Option<SubkeyPath>) -> (location: Self)
        ensures
            location.key == key,
            location.path == path,
    {
        Location { key, path }
    }

    /// The root of `key`.
    pub fn namespace(key: NamespaceKey) -> (location: Self)
        ensures
            location.wf(),
            location.key == key,
            location.path is None,
    {
        Location { key, path: None }
    }

    /// The namespace.
    pub fn key(&self) -> (key: &NamespaceKey)
        ensures
            *key == self.key,
    {
        &self.key
    }

    /// The path inside it.
    pub fn path(&self) -> (path: Option<&SubkeyPath>)
        ensures
            match (path, self.path) {
                (Some(path), Some(kept)) => *path == kept,
                (None, None) => true,
                _ => false,
            },
    {
        match &self.path {
            Some(path) => Some(path),
            None => None,
        }
    }

    /// Whether this is the namespace itself rather than something inside.
    pub fn is_root(&self) -> (root: bool)
        ensures
            root == (self.path is None),
    {
        self.path.is_none()
    }

    /// Whether two locations are the same.
    pub fn same(&self, other: &Self) -> (same: bool)
        requires
            self.wf(),
            other.wf(),
        ensures
            same == (self@ == other@),
    {
        if !self.key.same(&other.key) {
            return false;
        }
        match (&self.path, &other.path) {
            (Some(a), Some(b)) => a.same(b),
            (None, None) => true,
            _ => false,
        }
    }

    /// The URL this location is browsed at.
    pub fn url(&self) -> (url: String)
        requires
            self.wf(),
        ensures
            url@ == self@.url(),
    {
        let mut line: Vec<char> = Vec::new();
        append(&mut line, PREFIX);
        append_segment(&mut line, self.key.text.as_str());
        match &self.path {
            Some(path) => {
                line.push('/');
                let spelled = path.text();
                append_segment(&mut line, spelled.as_str());
            },
            None => {},
        }
        assert(line@ =~= self@.url());
        text_of(&line)
    }

    /// One level down, at `subkey`.
    pub fn child(&self, subkey: Subkey) -> (child: Self)
        ensures
            child.wf(),
            child@ == self@.child(subkey@),
    {
        let mut segments: Vec<Subkey> = match &self.path {
            Some(path) => copy_first(&path.segments, path.segments.len()),
            None => Vec::new(),
        };
        assert(steps(segments@) =~= self@.path);
        let ghost step = subkey@;
        segments.push(subkey);
        assert(steps(segments@) =~= self@.path.push(step));
        Location { key: self.key.clone(), path: Some(SubkeyPath { segments }) }
    }

    /// One level up; `None` at a namespace's root, where up is the whole
    /// ledger.
    pub fn parent(&self) -> (parent: Option<Self>)
        requires
            self.wf(),
        ensures
            match parent {
                Some(parent) => parent.wf() && self@.parent() == Some(parent@),
                None => self@.parent() is None,
            },
    {
        match &self.path {
            Some(path) => {
                let n: usize = path.segments.len() - 1;
                assert(steps(path.segments@).take(n as int) =~= self@.path.drop_last());
                Some(at_first(&self.key, &path.segments, n))
            },
            None => None,
        }
    }

    /// The way here: the namespace, then one location per segment, ending
    /// on this one.
    pub fn crumbs(&self) -> (crumbs: Vec<Location>)
        requires
            self.wf(),
        ensures
            places(crumbs@) == self@.crumbs(),
            forall|i: int| 0 <= i < crumbs@.len() ==> (#[trigger] crumbs@[i]).wf(),
    {
        let mut crumbs: Vec<Location> = Vec::new();
        crumbs.push(Location { key: self.key.clone(), path: None });
        assert(crumbs@[0]@.path =~= self@.path.take(0));
        match &self.path {
            Some(path) => {
                let n: usize = path.segments.len();
                let mut i: usize = 0;
                while i < n
                    invariant
                        i <= n == path.segments@.len(),
                        self@.path == steps(path.segments@),
                        crumbs@.len() == i + 1,
                        forall|j: int|
                            0 <= j <= i ==> (#[trigger] crumbs@[j]).wf() && crumbs@[j]@ == (Place {
                                key: self@.key,
                                path: self@.path.take(j),
                            }),
                    decreases n - i,
                {
                    i += 1;
                    crumbs.push(at_first(&self.key, &path.segments, i));
                }
            },
            None => {},
        }
        assert(places(crumbs@) =~= self@.crumbs());
        crumbs
    }

    /// The last step here, as a crumb reads: the final segment, or the
    /// namespace at its root.
    pub fn name(&self) -> (name: String)
        requires
            self.wf(),
        ensures
            name@ == self@.name(),
    {
        match &self.path {
            Some(path) => {
                let n: usize = path.segments.len();
                path.segments[n - 1].text()
            },
            None => self.key.text.clone(),
        }
    }

    /// The namespace, then the path as it is written.
    pub fn text(&self) -> (text: String)
        requires
            self.wf(),
        ensures
            text@ == self@.text(),
    {
        let mut line: Vec<char> = Vec::new();
        append(&mut line, self.key.text.as_str());
        match &self.path {
            Some(path) => {
                append(&mut line, " › ");
                let spelled = path.chars();
                append_chars(&mut line, &spelled);
            },
            None => {},
        }
        assert(line@ =~= self@.text());
        text_of(&line)
    }
}

/// Where a route's captures point: `key`, and `path` inside it where there
/// is one.
pub open spec fn place_of(key: Option<Seq<char>>, path: Option<Seq<char>>) -> Result<
    Place,
    Seq<char>,
> {
    match key {
        None => Err("the route names no namespace"@),
        Some(key) => if key.len() == 0 {
            Err("`"@ + key + "` is not a namespace: "@ + "a namespace key cannot be empty"@)
        } else {
            match path {
                None => Ok(Place { key, path: Seq::empty() }),
                Some(text) => match path_of(text) {
                    Some(path) => Ok(Place { key, path }),
                    None => Err(
                        "`"@ + text + "` is not a path: "@
                            + "names are parted by dots, places and quoted names stand in brackets"@,
                    ),
                },
            }
        },
    }
}

impl Location {
    /// Reads the location off a route's captures.
    pub fn from_captures(key: Option<&str>, path: Option<&str>) -> (location: Result<Self, Error>)
        ensures
            match location {
                Ok(location) => location.wf() && place_of(text_view(key), text_view(path)) == Ok::<
                    Place,
                    Seq<char>,
                >(location@),
                Err(Error::BadRequest(said)) => place_of(text_view(key), text_view(path)) == Err::<
                    Place,
                    Seq<char>,
                >(said@),
                Err(_) => false,
            },
    {
        let key = match key {
            Some(key) => key,
            None => {
                return Err(Error::BadRequest("the route names no namespace".to_owned()));
            },
        };
        let named = match NamespaceKey::try_new(key) {
            Ok(named) => named,
            Err(e) => {
                return Err(
                    Error::BadRequest(complain(key, "` is not a namespace: ", e.describe())),
                );
            },
        };
        match path {
            None => Ok(Location { key: named, path: None }),
            Some(text) => match SubkeyPath::parse(text) {
                Ok(path) => Ok(Location { key: named, path: Some(path) }),
                Err(e) => Err(Error::BadRequest(complain(text, "` is not a path: ", e.describe()))),
            },
        }
    }
}

fn complain(text: &str, said: &'static str, why: &'static str) -> (line: String)
    ensures
        line@ == "`"@ + text@ + said@ + why@,
{
    let mut line: Vec<char> = Vec::new();
    append(&mut line, "`");
    append(&mut line, text);
    append(&mut line, said);
    append(&mut line, why);
    assert(line@ =~= "`"@ + text@ + said@ + why@);
    text_of(&line)
}

/// What a capital hex digit counts for.
pub open spec fn hex_digit_value(c: char) -> int {
    if c <= '9' {
        c as int - 48
    } else {
        c as int - 55
    }
}

/// The bytes that a URL segment spells: what follows a percent sign is one
/// byte in hex, all else stands for itself.
pub open spec fn unescaped(text: Seq<char>) -> Seq<u8>
    decreases text.len(),
{
    if text.len() == 0 {
        Seq::empty()
    } else if text[0] == '%' && text.len() >= 3 {
        seq![(hex_digit_value(text[1]) * 16 + hex_digit_value(text[2])) as u8] + unescaped(
            text.skip(3),
        )
    } else {
        seq![text[0] as u8] + unescaped(text.skip(1))
    }
}

/// Bytes read back from their segment, which holds no slash and nothing
/// but visible ASCII.
pub proof fn a_segment_reads_back(bytes: Seq<u8>)
    ensures
        unescaped(segment_of(bytes)) == bytes,
        forall|i: int|
            0 <= i < segment_of(bytes).len() ==> (#[trigger] segment_of(bytes)[i]) != '/' && '!'
                <= segment_of(bytes)[i] <= '~',
    decreases bytes.len(),
{
    let text = segment_of(bytes);
    if bytes.len() > 0 {
        let first = bytes[0];
        let rest = segment_of(bytes.skip(1));
        a_segment_reads_back(bytes.skip(1));
        let high = first as int / 16;
        let low = first as int % 16;
        if is_escaped(first) {
            assert(text =~= escape(first) + rest);
            assert(text.skip(3) =~= rest);
            assert(text[1] == capital_hex(high));
            assert(text[2] == capital_hex(low));
            assert(hex_digit_value(text[1]) == high);
            assert(hex_digit_value(text[2]) == low);
            assert(high * 16 + low == first);
        } else {
            assert(text =~= seq![first as char] + rest);
            assert(text.skip(1) =~= rest);
            assert(text[0] == first as char);
            assert(text[0] as u8 == first);
            assert(text[0] != '%');
        }
        assert(seq![first] + bytes.skip(1) =~= bytes);
        assert forall|i: int| 0 <= i < text.len() implies (#[trigger] text[i]) != '/' && '!'
            <= text[i] <= '~' by {
            let head = byte_text(first).len() as int;
            if i >= head {
                assert(text[i] == rest[i - head]);
            } else if is_escaped(first) {
                assert(text[i] == escape(first)[i]);
            }
        }
    }
}

/// Text reads back from its segment.
proof fn segment_text_reads_back(text: Seq<char>)
    ensures
        decode_utf8(unescaped(segment_text(text))) == text,
{
    a_segment_reads_back(encode_utf8(text));
    encode_utf8_decode_utf8(text);
}

/// A URL leads back to the location it was made for: what a server reads
/// off its two segments is the place that spelled them.
pub proof fn a_url_reads_back(place: Place)
    requires
        place.key.len() > 0,
    ensures
        ({
            let key = decode_utf8(unescaped(segment_text(place.key)));
            let path = decode_utf8(unescaped(segment_text(path_text(place.path))));
            place_of(
                Some(key),
                if place.path.len() == 0 {
                    None
                } else {
                    Some(path)
                },
            ) == Ok::<Place, Seq<char>>(place)
        }),
{
    segment_text_reads_back(place.key);
    segment_text_reads_back(path_text(place.path));
    if place.path.len() > 0 {
        a_path_reads_back(place.path);
    } else {
        assert(place.path =~= Seq::<Step>::empty());
    }
}

/// Two segments that a slash follows, or the end, start alike where the
/// longer text is the same.
proof fn segments_agree(a: Seq<char>, b: Seq<char>, after_a: Seq<char>, after_b: Seq<char>)
    requires
        a + after_a == b + after_b,
        forall|i: int| 0 <= i < a.len() ==> #[trigger] a[i] != '/',
        forall|i: int| 0 <= i < b.len() ==> #[trigger] b[i] != '/',
        after_a.len() > 0 ==> after_a[0] == '/',
        after_b.len() > 0 ==> after_b[0] == '/',
    ensures
        a == b,
        after_a == after_b,
{
    let whole = a + after_a;
    assert(whole.len() == b.len() + after_b.len());
    if a.len() < b.len() {
        assert(whole[a.len() as int] == after_a[0]);
        assert(whole[a.len() as int] == b[a.len() as int]);
    }
    if b.len() < a.len() {
        assert(whole[b.len() as int] == (b + after_b)[b.len() as int]);
        assert(whole[b.len() as int] == after_b[0]);
        assert(whole[b.len() as int] == a[b.len() as int]);
    }
    assert(a =~= whole.take(a.len() as int));
    assert(b =~= (b + after_b).take(a.len() as int));
    assert(after_a =~= whole.skip(a.len() as int));
    assert(after_b =~= (b + after_b).skip(a.len() as int));
}

/// What stands in a place's URL after the namespace.
spec fn tail_of(place: Place) -> Seq<char> {
    if place.path.len() == 0 {
        Seq::empty()
    } else {
        seq!['/'] + segment_text(path_text(place.path))
    }
}

/// A URL names one place.
pub proof fn a_url_names_one_place(a: Place, b: Place)
    requires
        a.url() == b.url(),
    ensures
        a == b,
{
    let prefix = "/ns/"@;
    let key_a = segment_text(a.key);
    let key_b = segment_text(b.key);
    assert(a.url() =~= prefix + (key_a + tail_of(a)));
    assert(b.url() =~= prefix + (key_b + tail_of(b)));
    assert(key_a + tail_of(a) =~= a.url().skip(prefix.len() as int));
    assert(key_b + tail_of(b) =~= b.url().skip(prefix.len() as int));
    a_segment_reads_back(encode_utf8(a.key));
    a_segment_reads_back(encode_utf8(b.key));
    segments_agree(key_a, key_b, tail_of(a), tail_of(b));
    segment_text_reads_back(a.key);
    segment_text_reads_back(b.key);
    if a.path.len() > 0 {
        let path_a = segment_text(path_text(a.path));
        let path_b = segment_text(path_text(b.path));
        assert(tail_of(a).len() > 0);
        assert(path_a =~= tail_of(a).skip(1));
        assert(path_b =~= tail_of(b).skip(1));
        segment_text_reads_back(path_text(a.path));
        segment_text_reads_back(path_text(b.path));
        a_path_reads_back(a.path);
        a_path_reads_back(b.path);
    } else {
        assert(tail_of(a).len() == 0);
        assert(b.path.len() == 0);
        assert(a.path =~= b.path);
    }
}

/// A URL holds nothing but visible ASCII, so it fits a header as it is.
pub proof fn a_url_is_plain(place: Place)
    ensures
        forall|i: int| 0 <= i < place.url().len() ==> '!' <= #[trigger] place.url()[i] <= '~',
{
    reveal_strlit("/ns/");
    a_segment_reads_back(encode_utf8(place.key));
    a_segment_reads_back(encode_utf8(path_text(place.path)));
    let url = place.url();
    let prefix = "/ns/"@;
    let key = segment_text(place.key);
    let path = segment_text(path_text(place.path));
    assert forall|i: int| 0 <= i < url.len() implies '!' <= #[trigger] url[i] <= '~' by {
        if i < prefix.len() {
            assert(url[i] == prefix[i]);
        } else if i < prefix.len() + key.len() {
            assert(url[i] == key[i - prefix.len()]);
        } else if i > prefix.len() + key.len() {
            assert(url[i] == path[i - prefix.len() - key.len() - 1]);
        }
    }
}

/// Up from one level down is here, and the way here goes one level at a
/// time and ends here.
pub proof fn up_undoes_down(place: Place, step: Step)
    ensures
        place.child(step).parent() == Some(place),
        place.crumbs().last() == place,
        place.crumbs()[0].parent() is None,
        forall|i: int|
            0 < i < place.crumbs().len() ==> (#[trigger] place.crumbs()[i]).parent() == Some(
                place.crumbs()[i - 1],
            ),
{
    assert(place.path.push(step).drop_last() =~= place.path);
    assert(place.path.take(place.path.len() as int) =~= place.path);
    let crumbs = place.crumbs();
    assert forall|i: int| 0 < i < crumbs.len() implies (#[trigger] crumbs[i]).parent() == Some(
        crumbs[i - 1],
    ) by {
        assert(place.path.take(i).drop_last() =~= place.path.take(i - 1));
    }
}

} // verus!
