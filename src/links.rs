//! Links posted in a conversation: which ones are worth deduplicating.
use vstd::prelude::*;
use vstd::string::StringExecFns;

verus! {

/// A parsed link: its normalised text, its domain, and its path segments.
pub struct Link {
    pub href: String,
    pub domain: Option<String>,
    pub segments: Option<Vec<String>>,
}

pub open spec fn segments_view(v: Seq<String>) -> Seq<Seq<char>> {
    v.map_values(|s: String| s@)
}

pub open spec fn link_view(l: Link) -> (Seq<char>, Option<Seq<char>>, Option<Seq<Seq<char>>>) {
    (
        l.href@,
        match l.domain {
            Some(d) => Some(d@),
            None => None,
        },
        match l.segments {
            Some(v) => Some(segments_view(v@)),
            None => None,
        },
    )
}

/// What `url::Url::parse` makes of a string: the serialisation, the domain
/// and the path segments of the URL, if it is one.
pub uninterp spec fn parsed_link_of(s: Seq<char>) -> Option<
    (Seq<char>, Option<Seq<char>>, Option<Seq<Seq<char>>>),
>;

/// Relies on `url::Url::parse`, with `as_str`, `domain` and `path_segments`
/// of its result: these depend on the string alone.
#[verifier::external_body]
fn url_parse(s: &str) -> (r: Option<Link>)
    ensures
        match r {
            Some(l) => parsed_link_of(s@) == Some(link_view(l)),
            None => parsed_link_of(s@) is None,
        },
{
    url::Url::parse(s).ok().map(
        |u|
            Link {
                href: u.as_str().to_string(),
                domain: u.domain().map(|d| d.to_string()),
                segments: u.path_segments().map(|p| p.map(|x| x.to_string()).collect()),
            },
    )
}

/// Parses `s` as a URL; `None` where it is not one.
pub fn parse_link(s: &str) -> (r: Option<Link>)
    ensures
        match r {
            Some(l) => parsed_link_of(s@) == Some(link_view(l)),
            None => parsed_link_of(s@) is None,
        },
{
    url_parse(s)
}

pub open spec fn tme() -> Seq<char> {
    seq!['t', '.', 'm', 'e']
}

pub open spec fn joinchat() -> Seq<char> {
    seq!['j', 'o', 'i', 'n', 'c', 'h', 'a', 't']
}

pub open spec fn github() -> Seq<char> {
    seq!['g', 'i', 't', 'h', 'u', 'b', '.', 'c', 'o', 'm']
}

pub open spec fn stackoverflow() -> Seq<char> {
    seq!['s', 't', 'a', 'c', 'k', 'o', 'v', 'e', 'r', 'f', 'l', 'o', 'w', '.', 'c', 'o', 'm']
}

/// Links left out of deduplication: invitations to join a chat, links to
/// messages of the current chat, and links into code-hosting and Q&A sites
/// that are shared again and again on purpose.
pub open spec fn is_filtered(
    domain: Option<Seq<char>>,
    segments: Option<Seq<Seq<char>>>,
    chat_id: Seq<char>,
) -> bool {
    match domain {
        Some(d) => {
            ||| d == github()
            ||| d == stackoverflow()
            ||| (d == tme() && match segments {
                Some(seg) => seg.len() >= 1 && (seg[0] == joinchat() || (seg[0] == seq!['c']
                    && seg.len() >= 2 && seg[1] == chat_id)),
                None => false,
            })
        },
        None => false,
    }
}

fn same_text(a: &String, lit: &str) -> (r: bool)
    ensures
        r == (a@ == lit@),
{
    let b = String::from_str(lit);
    a.eq(&b)
}

/// Keeps `link` unless it is one that deduplication leaves out in the chat
/// `chat_id`.
pub fn filter_url(link: Option<Link>, chat_id: &String) -> (r: Option<Link>)
    ensures
        match link {
            None => r is None,
            Some(l) => if is_filtered(link_view(l).1, link_view(l).2, chat_id@) {
                r is None
            } else {
                r == Some(l)
            },
        },
{
    let l = match link {
        None => {
            return None;
        },
        Some(l) => l,
    };
    proof {
        reveal_strlit("t.me");
        reveal_strlit("github.com");
        reveal_strlit("stackoverflow.com");
        reveal_strlit("joinchat");
        reveal_strlit("c");
        assert("t.me"@ =~= tme());
        assert("github.com"@ =~= github());
        assert("stackoverflow.com"@ =~= stackoverflow());
        assert("joinchat"@ =~= joinchat());
        assert("c"@ =~= seq!['c']);
    }
    let filtered = match &l.domain {
        None => false,
        Some(d) => {
            if same_text(d, "github.com") || same_text(d, "stackoverflow.com") {
                true
            } else if same_text(d, "t.me") {
                match &l.segments {
                    None => false,
                    Some(seg) => {
                        if seg.len() >= 1 {
                            let first = &seg[0];
                            if same_text(first, "joinchat") {
                                true
                            } else if same_text(first, "c") && seg.len() >= 2 {
                                seg[1].eq(chat_id)
                            } else {
                                false
                            }
                        } else {
                            false
                        }
                    },
                }
            } else {
                false
            }
        },
    };
    proof {
        match &l.segments {
            Some(v) => {
                if v@.len() >= 1 {
                    assert(segments_view(v@)[0] == v@[0]@);
                }
                if v@.len() >= 2 {
                    assert(segments_view(v@)[1] == v@[1]@);
                }
            },
            None => {},
        }
    }
    if filtered {
        None
    } else {
        Some(l)
    }
}

} // verus!
