//! Text normalizer: turn one incoming message into the final bounded
//! speech string, by author announcement, URL scrubbing, markup stripping,
//! dictionary substitution and length capping.

use crate::dict::Dictionary;
use crate::subst::{matcher_builds, matches_at, nonempty_pairs, replace_spec, replace_words_on_dict};
use discord_md::generate::ToMarkdownString;
use vstd::prelude::*;
use vstd::string::*;

verus! {

/// Character budget for a spoken message.
pub const MAX_READ_LENGTH: usize = 60;

/// Characters kept of an over-long message before the omission marker.
pub const TRUNCATED_LENGTH: usize = 55;

/// Milliseconds a pause must exceed before the same author is announced again.
pub const AUTHOR_REPEAT_WINDOW_MS: i64 = 10000;

/// Characters that may form the body of a URL: printable ASCII. A URL span
/// ends at the first space, control character or non-ASCII character.
pub open spec fn is_url_char(c: char) -> bool {
    32 < (c as u32) && (c as u32) <= 126
}

/// The scheme prefix of a plain URL.
pub open spec fn http_prefix() -> Seq<char> {
    seq!['h', 't', 't', 'p', ':', '/', '/']
}

/// The scheme prefix of a TLS URL.
pub open spec fn https_prefix() -> Seq<char> {
    seq!['h', 't', 't', 'p', 's', ':', '/', '/']
}

/// A URL begins at position `i` of `s`.
pub open spec fn url_starts_at(s: Seq<char>, i: int) -> bool {
    matches_at(s, i, http_prefix()) || matches_at(s, i, https_prefix())
}

/// First position at or after `i` whose character cannot belong to a URL.
pub open spec fn url_end(s: Seq<char>, i: int) -> int
    decreases s.len() - i,
{
    if i < 0 || i >= s.len() {
        i
    } else if is_url_char(s[i]) {
        url_end(s, i + 1)
    } else {
        i
    }
}

/// `url_end` stays between its start and the text's end.
proof fn lemma_url_end_bounds(s: Seq<char>, i: int)
    requires
        0 <= i <= s.len(),
    ensures
        i <= url_end(s, i) <= s.len(),
    decreases s.len() - i,
{
    if i < s.len() && is_url_char(s[i]) {
        lemma_url_end_bounds(s, i + 1);
    }
}

/// A URL start is a URL character, so the URL span is non-empty.
proof fn lemma_url_end_after_start(s: Seq<char>, i: int)
    requires
        url_starts_at(s, i),
    ensures
        0 <= i < s.len(),
        i < url_end(s, i) <= s.len(),
{
    if matches_at(s, i, http_prefix()) {
        assert(s.subrange(i, i + http_prefix().len() as int)[0] == s[i]);
        assert(s[i] == 'h');
    } else {
        assert(s.subrange(i, i + https_prefix().len() as int)[0] == s[i]);
        assert(s[i] == 'h');
    }
    lemma_url_end_bounds(s, i + 1);
}

/// URL scrubbing from position `i` on: every span that begins with a
/// scheme prefix is replaced, as a whole, by the separator glyph.
pub open spec fn scrub_urls(s: Seq<char>, i: int) -> Seq<char>
    decreases s.len() - i via scrub_urls_decreases
{
    if i < 0 || i >= s.len() {
        Seq::empty()
    } else if url_starts_at(s, i) {
        seq!['、'] + scrub_urls(s, url_end(s, i))
    } else {
        seq![s[i]] + scrub_urls(s, i + 1)
    }
}

#[via_fn]
proof fn scrub_urls_decreases(s: Seq<char>, i: int) {
    if 0 <= i && i < s.len() && url_starts_at(s, i) {
        lemma_url_end_after_start(s, i);
    }
}

/// Every character of the scheme prefixes may belong to a URL.
proof fn lemma_prefix_chars_are_url_chars()
    ensures
        forall|t: int|
            0 <= t < http_prefix().len() ==> is_url_char(#[trigger] http_prefix()[t]),
        forall|t: int|
            0 <= t < https_prefix().len() ==> is_url_char(#[trigger] https_prefix()[t]),
{
    assert forall|t: int|
        0 <= t < http_prefix().len() implies is_url_char(#[trigger] http_prefix()[t]) by {
        if t == 0 || t == 4 {
            assert(is_url_char('h') && is_url_char(':'));
        } else if t == 1 || t == 2 {
            assert(is_url_char('t'));
        } else if t == 3 {
            assert(is_url_char('p'));
        } else {
            assert(is_url_char('/'));
        }
    }
    assert forall|t: int|
        0 <= t < https_prefix().len() implies is_url_char(#[trigger] https_prefix()[t]) by {
        if t == 0 || t == 5 {
            assert(is_url_char('h') && is_url_char(':'));
        } else if t == 1 || t == 2 {
            assert(is_url_char('t'));
        } else if t == 3 {
            assert(is_url_char('p'));
        } else if t == 4 {
            assert(is_url_char('s'));
        } else {
            assert(is_url_char('/'));
        }
    }
}

/// A run of URL characters at the front of a scrubbed tail is a literal
/// copy of the corresponding input characters: the separator glyph is not
/// a URL character, so such a run never crosses a replaced span.
proof fn lemma_scrub_prefix_reflects(s: Seq<char>, j: int, q: Seq<char>)
    requires
        0 <= j <= s.len(),
        forall|t: int| 0 <= t < q.len() ==> is_url_char(#[trigger] q[t]),
        q.len() <= scrub_urls(s, j).len(),
        scrub_urls(s, j).subrange(0, q.len() as int) == q,
    ensures
        j + q.len() <= s.len(),
        s.subrange(j, j + q.len() as int) == q,
    decreases q.len(),
{
    let out = scrub_urls(s, j);
    if q.len() == 0 {
        assert(s.subrange(j, j) =~= q);
    } else {
        assert(j < s.len());
        if url_starts_at(s, j) {
            assert(out[0] == '、');
            assert(q[0] == out.subrange(0, q.len() as int)[0]);
            assert(is_url_char('、') == false);
            assert(false);
        } else {
            let tail = scrub_urls(s, j + 1);
            assert(out == seq![s[j]] + tail);
            assert(q[0] == out[0]);
            assert(out[0] == s[j]);
            let q2 = q.subrange(1, q.len() as int);
            assert forall|t: int| 0 <= t < q2.len() implies is_url_char(#[trigger] q2[t]) by {
                assert(q2[t] == q[t + 1]);
            }
            assert(tail.subrange(0, q2.len() as int) =~= q2) by {
                assert forall|t: int| 0 <= t < q2.len() implies tail.subrange(
                    0,
                    q2.len() as int,
                )[t] == q2[t] by {
                    assert(tail[t] == out[t + 1]);
                    assert(out.subrange(0, q.len() as int)[t + 1] == out[t + 1]);
                }
            }
            lemma_scrub_prefix_reflects(s, j + 1, q2);
            assert(s.subrange(j, j + q.len() as int) =~= q) by {
                assert forall|t: int| 0 <= t < q.len() implies s.subrange(
                    j,
                    j + q.len() as int,
                )[t] == q[t] by {
                    if t == 0 {
                    } else {
                        assert(s.subrange(j + 1, j + 1 + q2.len() as int)[t - 1] == q2[t - 1]);
                    }
                }
            }
        }
    }
}

/// No URL begins at any position of a scrubbed text.
proof fn lemma_scrub_no_url_at(s: Seq<char>, i: int, p: int)
    requires
        0 <= i,
    ensures
        !url_starts_at(scrub_urls(s, i), p),
    decreases s.len() - i,
{
    let out = scrub_urls(s, i);
    if i >= s.len() {
        assert(out.len() == 0);
    } else if url_starts_at(out, p) {
        let nxt: int = if url_starts_at(s, i) {
            lemma_url_end_after_start(s, i);
            url_end(s, i)
        } else {
            i + 1
        };
        let rest = scrub_urls(s, nxt);
        if p >= 1 {
            assert forall|q: Seq<char>|
                matches_at(out, p, q) && q.len() > 0 implies matches_at(rest, p - 1, q) by {
                assert forall|t: int| 0 <= t < q.len() implies rest.subrange(
                    p - 1,
                    p - 1 + q.len() as int,
                )[t] == q[t] by {
                    assert(rest[p - 1 + t] == out[p + t]);
                    assert(out.subrange(p, p + q.len() as int)[t] == q[t]);
                }
                assert(rest.subrange(p - 1, p - 1 + q.len() as int) =~= q);
            }
            assert(url_starts_at(rest, p - 1));
            lemma_scrub_no_url_at(s, nxt, p - 1);
            assert(false);
        } else {
            assert(p == 0);
            if url_starts_at(s, i) {
                assert(out[0] == '、');
                if matches_at(out, 0, http_prefix()) {
                    assert(out.subrange(0, http_prefix().len() as int)[0] == out[0]);
                } else {
                    assert(out.subrange(0, https_prefix().len() as int)[0] == out[0]);
                }
                assert(false);
            } else {
                lemma_prefix_chars_are_url_chars();
                if matches_at(out, 0, http_prefix()) {
                    lemma_scrub_prefix_reflects(s, i, http_prefix());
                    assert(matches_at(s, i, http_prefix()));
                } else {
                    lemma_scrub_prefix_reflects(s, i, https_prefix());
                    assert(matches_at(s, i, https_prefix()));
                }
                assert(false);
            }
        }
    }
}

/// URL scrubbing is complete: in a scrubbed text no URL begins anywhere,
/// so no URL fragment that the scrubber recognizes survives it.
pub proof fn lemma_no_url_after_scrub(s: Seq<char>)
    ensures
        forall|p: int| !(#[trigger] url_starts_at(scrub_urls(s, 0), p)),
{
    assert forall|p: int| !(#[trigger] url_starts_at(scrub_urls(s, 0), p)) by {
        lemma_scrub_no_url_at(s, 0, p);
    }
}

/// Whether `c` may belong to a URL.
fn is_url_char_exec(c: char) -> (b: bool)
    ensures
        b == is_url_char(c),
{
    32 < (c as u32) && (c as u32) <= 126
}

/// Whether the pattern `p` occurs in `text` at character position `i`.
fn matches_prefix_at(text: &str, i: usize, n: usize, p: &str) -> (b: bool)
    requires
        n == text@.len(),
        i <= n,
    ensures
        b == matches_at(text@, i as int, p@),
{
    let m = p.unicode_len();
    if n - i < m {
        return false;
    }
    let mut k: usize = 0;
    while k < m
        invariant
            n == text@.len(),
            m == p@.len(),
            i + m <= n,
            k <= m,
            forall|t: int| 0 <= t < k ==> text@[i + t] == p@[t],
        decreases m - k,
    {
        if text.get_char(i + k) != p.get_char(k) {
            proof {
                assert(text@.subrange(i as int, i as int + m as int)[k as int] == text@[i + k]);
            }
            return false;
        }
        k += 1;
    }
    proof {
        assert(text@.subrange(i as int, i as int + m as int) =~= p@);
    }
    true
}

/// Whether a URL begins at character position `i` of `text`.
fn url_starts_at_exec(text: &str, i: usize, n: usize) -> (b: bool)
    requires
        n == text@.len(),
        i <= n,
    ensures
        b == url_starts_at(text@, i as int),
{
    proof {
        reveal_strlit("http://");
        reveal_strlit("https://");
        assert("http://"@ =~= http_prefix());
        assert("https://"@ =~= https_prefix());
    }
    let b1 = matches_prefix_at(text, i, n, "http://");
    let b2 = matches_prefix_at(text, i, n, "https://");
    b1 || b2
}

/// First position at or after `i` whose character cannot belong to a URL.
fn url_end_exec(text: &str, i: usize, n: usize) -> (e: usize)
    requires
        n == text@.len(),
        i <= n,
    ensures
        e as int == url_end(text@, i as int),
        i <= e <= n,
{
    let mut j = i;
    while j < n && is_url_char_exec(text.get_char(j))
        invariant
            n == text@.len(),
            i <= j <= n,
            url_end(text@, i as int) == url_end(text@, j as int),
        decreases n - j,
    {
        j += 1;
    }
    j
}

/// Replace every URL in the text by the separator glyph, leaving all
/// other characters as they are.
pub fn remove_url(text: &str) -> (r: String)
    ensures
        r@ == scrub_urls(text@, 0),
{
    let n = text.unicode_len();
    let mut out = String::new();
    let mut i: usize = 0;
    proof {
        assert(out@ + scrub_urls(text@, 0) =~= scrub_urls(text@, 0));
    }
    while i < n
        invariant
            n == text@.len(),
            i <= n,
            out@ + scrub_urls(text@, i as int) == scrub_urls(text@, 0),
        decreases n - i,
    {
        let ghost prev = out@;
        if url_starts_at_exec(text, i, n) {
            let e = url_end_exec(text, i, n);
            proof {
                lemma_url_end_after_start(text@, i as int);
                reveal_strlit("、");
                assert("、"@ =~= seq!['、']);
            }
            out.append("、");
            proof {
                assert(out@ + scrub_urls(text@, e as int) =~= prev + scrub_urls(text@, i as int));
            }
            i = e;
        } else {
            let piece = text.substring_char(i, i + 1);
            out.append(piece);
            proof {
                assert(piece@ =~= seq![text@[i as int]]);
                assert(out@ + scrub_urls(text@, i as int + 1) =~= prev + scrub_urls(
                    text@,
                    i as int,
                ));
            }
            i = i + 1;
        }
    }
    proof {
        assert(out@ + scrub_urls(text@, n as int) =~= out@);
    }
    out
}

/// A previously read message: its author and timestamp.
#[derive(Debug, Clone, Copy, PartialEq, Eq, Structural)]
pub struct MessageRecord {
    pub author_id: u64,
    pub timestamp_ms: i64,
}

/// The author is announced when there is no previous message, when the
/// author changed, or when the pause since the previous message exceeds
/// the repeat window.
pub open spec fn should_announce(author_id: u64, timestamp_ms: i64, last: Option<
    MessageRecord,
>) -> bool {
    match last {
        None => true,
        Some(l) => author_id != l.author_id || timestamp_ms - l.timestamp_ms
            > AUTHOR_REPEAT_WINDOW_MS,
    }
}

/// Decide whether to prefix the message with its author's name.
pub fn should_read_author_name(author_id: u64, timestamp_ms: i64, last: &Option<
    MessageRecord,
>) -> (b: bool)
    ensures
        b == should_announce(author_id, timestamp_ms, *last),
{
    match last {
        None => true,
        Some(l) => author_id != l.author_id || (timestamp_ms as i128) - (l.timestamp_ms as i128)
            > (AUTHOR_REPEAT_WINDOW_MS as i128),
    }
}

/// Display name for announcements: the per-guild nickname when one is
/// set, else the account's global display name.
pub fn build_author_name(nickname: Option<String>, global_name: String) -> (r: String)
    ensures
        r@ == match nickname {
            Some(n) => n@,
            None => global_name@,
        },
{
    match nickname {
        Some(n) => n,
        None => global_name,
    }
}

/// The plain text of a message after markdown parsing: structural markup
/// (emphasis, code spans and the like) is dropped, literal content kept.
pub uninterp spec fn plain_text_of(s: Seq<char>) -> Seq<char>;

/// Relies on `discord_md::parse` and on
/// `ToMarkdownString::to_markdown_string` with `omit_format(true)`: the
/// message is parsed as Discord markdown and rendered back without the
/// styling syntax, a result that depends on the input text alone.
#[verifier::external_body]
fn markdown_to_plain(text: &str) -> (r: String)
    ensures
        r@ == plain_text_of(text@),
{
    let doc = discord_md::parse(text);
    doc.to_markdown_string(&discord_md::generate::ToMarkdownStringOption::new().omit_format(true))
}

/// The fixed continuation marker appended to truncated text.
pub open spec fn omission_marker() -> Seq<char> {
    seq!['、', '以', '下', ' ', '略']
}

/// Cap to the character budget: text over `MAX_READ_LENGTH` characters is
/// cut to its first `TRUNCATED_LENGTH` characters, with the omission
/// marker appended; shorter text is kept as it is.
pub open spec fn cap_spec(s: Seq<char>) -> Seq<char> {
    if s.len() > MAX_READ_LENGTH {
        s.take(TRUNCATED_LENGTH as int) + omission_marker()
    } else {
        s
    }
}

/// Apply the character budget to a finished text.
fn cap_text(text: String) -> (r: String)
    ensures
        r@ == cap_spec(text@),
{
    let n = text.as_str().unicode_len();
    if n > MAX_READ_LENGTH {
        let head = text.as_str().substring_char(0, TRUNCATED_LENGTH);
        proof {
            reveal_strlit("、以下 略");
            assert("、以下 略"@ =~= omission_marker());
        }
        let r = String::from_str(head).concat("、以下 略");
        proof {
            assert(r@ =~= cap_spec(text@));
        }
        r
    } else {
        text
    }
}

/// One message to normalize: author identity and timestamp, the resolved
/// display name, the mention-resolved message text, and the previous
/// message read on the same channel, if any.
pub struct NormalizationRequest {
    pub author_id: u64,
    pub timestamp_ms: i64,
    pub author_name: String,
    pub content: String,
    pub last_message: Option<MessageRecord>,
}

/// The normalized speech text of a message: the author announcement when
/// it is due, then the URL-scrubbed plain message text, with every
/// dictionary word replaced by its reading, capped to the budget.
pub open spec fn read_text_spec(
    m: Map<Seq<char>, Seq<char>>,
    author_id: u64,
    timestamp_ms: i64,
    author_name: Seq<char>,
    content: Seq<char>,
    last: Option<MessageRecord>,
) -> Seq<char> {
    let prefix = if should_announce(author_id, timestamp_ms, last) {
        scrub_urls(author_name, 0) + seq!['。']
    } else {
        Seq::empty()
    };
    let body = scrub_urls(plain_text_of(content), 0);
    cap_spec(replace_spec(m, prefix + body, 0))
}

/// Build the final bounded speech string for one message. A string comes
/// back exactly when the substitution matcher can be built over the
/// dictionary's non-empty words (`matcher_builds`), a condition of the
/// dictionary alone, never of the message; with an empty dictionary the
/// pipeline always succeeds.
pub fn build_read_text(dict: &Dictionary, req: &NormalizationRequest) -> (r: Option<String>)
    requires
        dict.wf(),
    ensures
        (r is Some) == matcher_builds(nonempty_pairs(dict.pairs())),
        dict@ == Map::<Seq<char>, Seq<char>>::empty() ==> r is Some,
        r matches Some(out) ==> out@ == read_text_spec(
            dict@,
            req.author_id,
            req.timestamp_ms,
            req.author_name@,
            req.content@,
            req.last_message,
        ),
{
    let ghost prefix: Seq<char> = if should_announce(
        req.author_id,
        req.timestamp_ms,
        req.last_message,
    ) {
        scrub_urls(req.author_name@, 0) + seq!['。']
    } else {
        Seq::empty()
    };
    let mut text = String::new();
    if should_read_author_name(req.author_id, req.timestamp_ms, &req.last_message) {
        let scrubbed = remove_url(req.author_name.as_str());
        text.append(scrubbed.as_str());
        proof {
            reveal_strlit("。");
            assert("。"@ =~= seq!['。']);
        }
        text.append("。");
        proof {
            assert(text@ =~= prefix);
        }
    }
    let plain = markdown_to_plain(req.content.as_str());
    let body = remove_url(plain.as_str());
    text.append(body.as_str());
    proof {
        assert(text@ =~= prefix + scrub_urls(plain_text_of(req.content@), 0));
    }
    let replaced = match replace_words_on_dict(dict, text.as_str()) {
        Some(s) => s,
        None => {
            return None;
        },
    };
    let out = cap_text(replaced);
    proof {
        assert(out@ =~= read_text_spec(
            dict@,
            req.author_id,
            req.timestamp_ms,
            req.author_name@,
            req.content@,
            req.last_message,
        ));
    }
    Some(out)
}

/// An incoming message is read aloud only when the guild's voice
/// connection is active, the author is not the bot itself, the text does
/// not start with the ignore prefix `;`, and the message arrived in the
/// bound text channel.
pub open spec fn gate_spec(
    is_connected: bool,
    author_id: u64,
    bot_id: u64,
    content: Seq<char>,
    channel_id: u64,
    bound_channel_id: u64,
) -> bool {
    is_connected && author_id != bot_id && !(content.len() > 0 && content[0] == ';')
        && channel_id == bound_channel_id
}

/// Decide whether an incoming message passes the reading gates.
pub fn should_handle_message(
    is_connected: bool,
    author_id: u64,
    bot_id: u64,
    content: &str,
    channel_id: u64,
    bound_channel_id: u64,
) -> (b: bool)
    ensures
        b == gate_spec(is_connected, author_id, bot_id, content@, channel_id, bound_channel_id),
{
    if !is_connected {
        return false;
    }
    if author_id == bot_id {
        return false;
    }
    if !content.is_empty() && content.get_char(0) == ';' {
        return false;
    }
    channel_id == bound_channel_id
}

/// Truncation boundary: text within the character budget passes through
/// unchanged; longer text becomes exactly its first `TRUNCATED_LENGTH`
/// characters followed by the omission marker, so the capped length never
/// depends on how long the original was.
pub proof fn lemma_truncation_boundary(s: Seq<char>)
    ensures
        s.len() <= MAX_READ_LENGTH ==> cap_spec(s) == s,
        s.len() > MAX_READ_LENGTH ==> cap_spec(s) == s.take(TRUNCATED_LENGTH as int)
            + omission_marker(),
        s.len() > MAX_READ_LENGTH ==> cap_spec(s).len() == TRUNCATED_LENGTH
            + omission_marker().len(),
{
}

/// Author announcement: a previous message by the same author within the
/// repeat window suppresses the prefix; a pause over the window forces
/// it; a different author always forces it; so does the absence of any
/// previous message.
pub proof fn lemma_author_announcement(author_id: u64, timestamp_ms: i64, last: MessageRecord)
    ensures
        author_id == last.author_id && timestamp_ms - last.timestamp_ms <= AUTHOR_REPEAT_WINDOW_MS
            ==> !should_announce(author_id, timestamp_ms, Some(last)),
        timestamp_ms - last.timestamp_ms > AUTHOR_REPEAT_WINDOW_MS ==> should_announce(
            author_id,
            timestamp_ms,
            Some(last),
        ),
        author_id != last.author_id ==> should_announce(author_id, timestamp_ms, Some(last)),
        should_announce(author_id, timestamp_ms, None),
{
}

} // verus!
