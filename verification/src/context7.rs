//! Context7 answers: cache keys, the key check, library resolution and the
//! markdown composed from a context reply.

use vstd::prelude::*;

use crate::text::{clip, clip_chars, push_str, string_from_chars, to_chars};

verus! {

/// Settings of the Context7 client.
#[derive(Debug, Clone)]
pub struct Context7 {
    pub api_key: Option<String>,
}

/// Why a Context7 lookup gave nothing.
#[derive(Debug, Clone, Copy, PartialEq, Eq, Structural)]
pub enum Context7Error {
    /// No API key is configured.
    MissingKey,
    /// The reply held neither context nor snippets.
    NoDocs,
}

impl Context7Error {
    /// The message shown to users.
    pub fn message(&self) -> (r: &'static str)
        ensures
            r@ == (match *self {
                Context7Error::MissingKey => "CONTEXT7_API_KEY not set"@,
                Context7Error::NoDocs => "no Context7 documentation found"@,
            }),
    {
        match self {
            Context7Error::MissingKey => "CONTEXT7_API_KEY not set",
            Context7Error::NoDocs => "no Context7 documentation found",
        }
    }
}

/// A library search result.
pub struct LibEntry {
    pub id: String,
    pub name: String,
}

/// A documentation snippet.
pub struct Snippet {
    pub title: String,
    pub content: String,
}

/// `s` when it has at most `max` characters, else its first `max`
/// characters followed by `'…'`.
pub open spec fn truncate_spec(s: Seq<char>, max: nat) -> Seq<char> {
    clip(s, max, max)
}

/// Shortens `s` to `max` characters plus `'…'` when it is longer.
fn truncate(s: &str, max: usize) -> (r: String)
    ensures
        r@ == truncate_spec(s@, max as nat),
{
    let cs = to_chars(s);
    let v = clip_chars(cs.as_slice(), max, max);
    string_from_chars(v.as_slice())
}

/// The markdown of up to three snippets: a `### title` line when the title
/// is not empty, the content cut to 600 characters, a blank line.
pub open spec fn snippets_markdown(sn: Seq<(Seq<char>, Seq<char>)>) -> Seq<char>
    decreases sn.len(),
{
    if sn.len() == 0 {
        Seq::empty()
    } else {
        let (t, c) = sn.last();
        snippets_markdown(sn.drop_last()) + (if t.len() > 0 {
            "### "@ + t + "\n"@
        } else {
            Seq::empty()
        }) + truncate_spec(c, 600) + "\n\n"@
    }
}

/// The views of a snippet list.
pub open spec fn snippet_rows(v: Seq<Snippet>) -> Seq<(Seq<char>, Seq<char>)> {
    v.map_values(|s: Snippet| (s.title@, s.content@))
}

impl Context7 {
    /// A client using `api_key`.
    pub fn new(api_key: Option<String>) -> (r: Self)
        ensures
            r.api_key == api_key,
    {
        Context7 { api_key }
    }

    /// A non-empty key is configured.
    pub fn is_configured(&self) -> (r: bool)
        ensures
            r == (self.api_key matches Some(k) && k@.len() > 0),
    {
        match &self.api_key {
            Some(k) => !k.as_str().is_empty(),
            None => false,
        }
    }

    /// The key to call the API with.
    pub fn api_key_for_fetch(&self) -> (r: Result<String, Context7Error>)
        ensures
            match r {
                Ok(k) => (self.api_key matches Some(a) && a@.len() > 0 && k@ == a@),
                Err(e) => e == Context7Error::MissingKey && !(self.api_key matches Some(a) && a@.len()
                    > 0),
            },
    {
        match &self.api_key {
            Some(k) => if !k.as_str().is_empty() {
                Ok(k.clone())
            } else {
                Err(Context7Error::MissingKey)
            },
            None => Err(Context7Error::MissingKey),
        }
    }
}

/// The first step of a lookup.
pub enum FetchStart {
    /// The answer was cached: return it.
    Cached(String),
    /// Ask the service with this key.
    Ask(String),
    /// The lookup cannot be made.
    Fail(Context7Error),
}

impl Context7 {
    /// Starts a lookup given the cached answer for its key, if any: a
    /// cached answer is returned as it is; otherwise a configured key is
    /// needed to ask the service.
    pub fn fetch_start(&self, cached: Option<String>) -> (r: FetchStart)
        ensures
            cached matches Some(v) ==> (r matches FetchStart::Cached(c) && c@ == v@),
            cached is None ==> match r {
                FetchStart::Ask(k) => self.api_key matches Some(a) && a@.len() > 0 && k@ == a@,
                FetchStart::Fail(e) => e == Context7Error::MissingKey && !(self.api_key matches Some(
                    a,
                ) && a@.len() > 0),
                FetchStart::Cached(_) => false,
            },
    {
        match cached {
            Some(v) => FetchStart::Cached(v),
            None => match self.api_key_for_fetch() {
                Ok(k) => FetchStart::Ask(k),
                Err(e) => FetchStart::Fail(e),
            },
        }
    }
}

/// The library id to ask for: the one the library search found, else the
/// name as given.
pub fn library_id(found: Option<String>, library: &str) -> (r: String)
    ensures
        r@ == match found {
            Some(f) => f@,
            None => library@,
        },
{
    match found {
        Some(f) => f,
        None => library.to_owned(),
    }
}

/// Cache key of a lookup: `<library>::<query>`.
pub fn cache_key(library: &str, query: &str) -> (r: String)
    ensures
        r@ == library@ + "::"@ + query@,
{
    let mut k = library.to_owned();
    push_str(&mut k, "::");
    push_str(&mut k, query);
    k
}

/// The library id from a search: the first result's id, or its name when
/// the id is empty; nothing when there is no result or both are empty.
pub fn pick_library(results: &[LibEntry]) -> (r: Option<String>)
    ensures
        results@.len() == 0 ==> r is None,
        results@.len() > 0 ==> ({
            let f = results@[0];
            if f.id@.len() > 0 {
                (r matches Some(v) && v@ == f.id@)
            } else if f.name@.len() > 0 {
                (r matches Some(v) && v@ == f.name@)
            } else {
                r is None
            }
        }),
{
    if results.len() == 0 {
        return None;
    }
    let first = &results[0];
    if first.id.as_str().is_empty() {
        if first.name.as_str().is_empty() {
            None
        } else {
            Some(first.name.clone())
        }
    } else {
        Some(first.id.clone())
    }
}

/// The markdown of a context reply: the context text cut to 1800
/// characters when there is one; else up to three snippets (see
/// `snippets_markdown`) cut to 1800 characters; `NoDocs` when there are
/// no snippets either.
pub fn compose_context(context: &str, snippets: &[Snippet]) -> (r: Result<String, Context7Error>)
    ensures
        context@.len() > 0 ==> (r matches Ok(m) && m@ == truncate_spec(context@, 1800)),
        context@.len() == 0 && snippets@.len() == 0 ==> r == Err::<String, Context7Error>(
            Context7Error::NoDocs,
        ),
        context@.len() == 0 && snippets@.len() > 0 ==> (r matches Ok(m) && m@ == truncate_spec(
            snippets_markdown(snippet_rows(snippets@).take(
                if snippets@.len() < 3 {
                    snippets@.len() as int
                } else {
                    3
                },
            )),
            1800,
        )),
{
    if !context.is_empty() {
        return Ok(truncate(context, 1800));
    }
    if snippets.len() == 0 {
        return Err(Context7Error::NoDocs);
    }
    let n: usize = if snippets.len() < 3 {
        snippets.len()
    } else {
        3
    };
    let ghost rows = snippet_rows(snippets@);
    let mut out = String::new();
    let mut i: usize = 0;
    proof {
        assert(rows.take(0) =~= Seq::<(Seq<char>, Seq<char>)>::empty());
    }
    while i < n
        invariant
            n <= snippets@.len(),
            rows == snippet_rows(snippets@),
            i <= n,
            out@ == snippets_markdown(rows.take(i as int)),
        decreases n - i,
    {
        let sn = &snippets[i];
        let ghost before = out@;
        let has_title = !sn.title.as_str().is_empty();
        if has_title {
            push_str(&mut out, "### ");
            push_str(&mut out, sn.title.as_str());
            push_str(&mut out, "\n");
        }
        let c = truncate(sn.content.as_str(), 600);
        push_str(&mut out, c.as_str());
        push_str(&mut out, "\n\n");
        proof {
            let t = rows.take(i as int + 1);
            assert(t.drop_last() =~= rows.take(i as int));
            assert(t.last() == (sn.title@, sn.content@));
            if has_title {
                assert(out@ =~= before + ("### "@ + sn.title@ + "\n"@) + truncate_spec(sn.content@, 600)
                    + "\n\n"@);
            } else {
                assert(out@ =~= before + Seq::<char>::empty() + truncate_spec(sn.content@, 600)
                    + "\n\n"@);
            }
        }
        i = i + 1;
    }
    Ok(truncate(out.as_str(), 1800))
}

} // verus!
