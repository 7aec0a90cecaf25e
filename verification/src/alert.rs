//! Composing the notification for newly found supporters: the subject line,
//! the plain-text body and the HTML body, each pinned down character by
//! character.

use vstd::prelude::*;
use crate::record::{Record, RecordSet, RecView};
use crate::snapshot;
use crate::text;
use crate::text::STAR;

verus! {

/// A run of `n` rating glyphs.
pub open spec fn star_run(n: nat) -> Seq<char>
    decreases n,
{
    if n == 0 {
        Seq::<char>::empty()
    } else {
        star_run((n - 1) as nat).push(STAR)
    }
}

/// One record's line in the plain-text body.
pub open spec fn text_line(r: RecView) -> Seq<char> {
    "  \u{2022} "@ + r.name + (match r.rating {
        Option::Some(n) => " ("@ + star_run(n as nat) + "\u{2b50})"@,
        Option::None => Seq::<char>::empty(),
    }) + (match r.comment {
        Option::Some(c) => " - \""@ + c + "\""@,
        Option::None => Seq::<char>::empty(),
    })
}

/// The plain-text lines after the first, each on its own line.
pub open spec fn text_lines_rest(rs: Seq<RecView>) -> Seq<char>
    decreases rs.len(),
{
    if rs.len() == 0 {
        Seq::<char>::empty()
    } else {
        seq!['\n'] + text_line(rs[0]) + text_lines_rest(rs.drop_first())
    }
}

/// The plain-text lines of all records, joined by newlines.
pub open spec fn text_lines(rs: Seq<RecView>) -> Seq<char> {
    if rs.len() == 0 {
        Seq::<char>::empty()
    } else {
        text_line(rs[0]) + text_lines_rest(rs.drop_first())
    }
}

/// One record's entry in the HTML body.
pub open spec fn html_entry(r: RecView) -> Seq<char> {
    "                <div class=\"dj-item\"><strong>\u{2728} "@ + r.name + "</strong>"@ + (
    match r.rating {
        Option::Some(n) => " <span style=\"color: #FFD700;\">"@ + star_run(n as nat) + "</span>"@,
        Option::None => Seq::<char>::empty(),
    }) + (match r.comment {
        Option::Some(c) => "<br/><em style=\"color: #666; margin-left: 20px;\">\""@ + c
            + "\"</div></em>"@,
        Option::None => "</div>"@,
    })
}

/// The HTML entries after the first, each on its own line.
pub open spec fn html_entries_rest(rs: Seq<RecView>) -> Seq<char>
    decreases rs.len(),
{
    if rs.len() == 0 {
        Seq::<char>::empty()
    } else {
        seq!['\n'] + html_entry(rs[0]) + html_entries_rest(rs.drop_first())
    }
}

/// The HTML entries of all records, joined by newlines.
pub open spec fn html_entries(rs: Seq<RecView>) -> Seq<char> {
    if rs.len() == 0 {
        Seq::<char>::empty()
    } else {
        html_entry(rs[0]) + html_entries_rest(rs.drop_first())
    }
}

/// Whether any record carries a comment or a rating.
pub open spec fn any_rich(rs: Seq<RecView>) -> bool {
    exists|i: int|
        0 <= i < rs.len() && ((#[trigger] rs[i]).comment is Some || rs[i].rating is Some)
}

/// The subject line.
pub open spec fn subject_spec(count: nat, rich: bool, display: Seq<char>) -> Seq<char> {
    "\u{1f6a8} "@ + snapshot::dec_digits(count) + " New DJ"@ + (if count == 1 {
        ""@
    } else {
        "s"@
    }) + " "@ + (if rich {
        "Support/Comment"@
    } else {
        "Added"@
    }) + " for "@ + display
}

/// The plain-text body.
pub open spec fn text_body_spec(display: Seq<char>, rs: Seq<RecView>, url: Seq<char>) -> Seq<char> {
    "\u{1f6a8} New DJ support detected on Inflyte!\n\nTrack: "@ + display + "\n\n"@ + text_lines(
        rs,
    ) + "\n\nTotal new additions: "@ + snapshot::dec_digits(rs.len()) + "\n\nView at: "@ + url
}

/// The HTML body.
pub open spec fn html_body_spec(display: Seq<char>, rs: Seq<RecView>, url: Seq<char>) -> Seq<char> {
    html_head() + display + "</p>\n            <div class=\"dj-list\">\n                <h3>New Support ("@
        + snapshot::dec_digits(rs.len())
        + ")</h3>\n"@ + html_entries(rs)
        + "\n            </div>\n            <p>View the full list at: <a href=\""@ + url + "\">"@
        + url + html_foot()
}

/// Everything before the track title in the HTML body.
pub open spec fn html_head() -> Seq<char> {
    "<!DOCTYPE html>\n<html>\n<head>\n    <style>\n        body { font-family: Arial, sans-serif; line-height: 1.6; color: #333; }\n        .container { max-width: 600px; margin: 0 auto; padding: 20px; }\n        .header { background: linear-gradient(135deg, #667eea 0%, #764ba2 100%); color: white; padding: 20px; border-radius: 8px 8px 0 0; }\n        .content { background: #f9f9f9; padding: 20px; border-radius: 0 0 8px 8px; }\n        .dj-list { background: white; padding: 15px; border-left: 4px solid #667eea; margin: 15px 0; }\n        .dj-item { margin: 8px 0; }\n        .campaign { color: #667eea; font-weight: bold; }\n        .footer { text-align: center; margin-top: 20px; color: #666; font-size: 12px; }\n    </style>\n</head>\n<body>\n    <div class=\"container\">\n        <div class=\"header\">\n            <h1>\u{1f3b5} Inflyte DJ Monitor Alert</h1>\n        </div>\n        <div class=\"content\">\n            <p><strong>New DJs have been added to the Support section!</strong></p>\n            <p class=\"campaign\">Track: "@
}

/// Everything after the second address in the HTML body.
pub open spec fn html_foot() -> Seq<char> {
    "</a></p>\n        </div>\n        <div class=\"footer\">\n            <p>This is an automated notification from your Inflyte DJ Monitor</p>\n        </div>\n    </div>\n</body>\n</html>"@
}

/// A composed notification.
pub struct AlertMessage {
    pub subject: String,
    pub text_body: String,
    pub html_body: String,
}

/// Appends `n` rating glyphs to `out`.
fn push_stars(out: &mut Vec<char>, n: u8)
    ensures
        final(out)@ == old(out)@ + star_run(n as nat),
{
    let mut k: u8 = 0;
    proof {
        assert(star_run(0) =~= Seq::<char>::empty());
        assert(out@ =~= old(out)@ + star_run(0));
    }
    while k < n
        invariant
            k <= n,
            out@ =~= old(out)@ + star_run(k as nat),
        decreases n - k,
    {
        out.push(STAR);
        k += 1;
    }
}

/// Appends one record's plain-text line.
fn push_text_line(out: &mut Vec<char>, r: &Record)
    ensures
        final(out)@ == old(out)@ + text_line(r@),
{
    text::append_str(out, "  \u{2022} ");
    text::append_str(out, r.name.as_str());
    match r.rating {
        Option::Some(n) => {
            text::append_str(out, " (");
            push_stars(out, n);
            text::append_str(out, "\u{2b50})");
        },
        Option::None => {},
    }
    match &r.comment {
        Option::Some(c) => {
            text::append_str(out, " - \"");
            text::append_str(out, c.as_str());
            text::append_str(out, "\"");
        },
        Option::None => {},
    }
    proof {
        assert(out@ =~= old(out)@ + text_line(r@));
    }
}

/// Appends one record's HTML entry.
fn push_html_entry(out: &mut Vec<char>, r: &Record)
    ensures
        final(out)@ == old(out)@ + html_entry(r@),
{
    text::append_str(out, "                <div class=\"dj-item\"><strong>\u{2728} ");
    text::append_str(out, r.name.as_str());
    text::append_str(out, "</strong>");
    match r.rating {
        Option::Some(n) => {
            text::append_str(out, " <span style=\"color: #FFD700;\">");
            push_stars(out, n);
            text::append_str(out, "</span>");
        },
        Option::None => {},
    }
    match &r.comment {
        Option::Some(c) => {
            text::append_str(out, "<br/><em style=\"color: #666; margin-left: 20px;\">\"");
            text::append_str(out, c.as_str());
            text::append_str(out, "\"</div></em>");
        },
        Option::None => {
            text::append_str(out, "</div>");
        },
    }
    proof {
        assert(out@ =~= old(out)@ + html_entry(r@));
    }
}

/// Whether any of the fresh records carries a comment or a rating.
fn any_rich_exec(rs: &RecordSet) -> (b: bool)
    ensures
        b == any_rich(rs@),
{
    let n = rs.records.len();
    let mut i: usize = 0;
    while i < n
        invariant
            n == rs.records.len(),
            i <= n,
            forall|k: int|
                0 <= k < i ==> (#[trigger] rs@[k]).comment is None && rs@[k].rating is None,
        decreases n - i,
    {
        let rich = match (&rs.records[i].comment, rs.records[i].rating) {
            (Option::None, Option::None) => false,
            _ => true,
        };
        proof {
            assert(rs@[i as int] == rs.records@[i as int]@);
        }
        if rich {
            return true;
        }
        i += 1;
    }
    proof {
        if any_rich(rs@) {
            let k = choose|k: int|
                0 <= k < rs@.len() && ((#[trigger] rs@[k]).comment is Some || rs@[k].rating
                    is Some);
            assert(rs@[k].comment is None && rs@[k].rating is None);
        }
    }
    false
}

proof fn lemma_text_lines_rest_push(rs: Seq<RecView>, x: RecView)
    ensures
        text_lines_rest(rs.push(x)) == text_lines_rest(rs) + seq!['\n'] + text_line(x),
    decreases rs.len(),
{
    if rs.len() == 0 {
        assert(rs.push(x)[0] == x);
        assert(rs.push(x).drop_first() =~= Seq::<RecView>::empty());
        assert(text_lines_rest(Seq::<RecView>::empty()) =~= Seq::<char>::empty());
        assert(text_lines_rest(rs.push(x)) =~= text_lines_rest(rs) + seq!['\n'] + text_line(x));
    } else {
        assert(rs.push(x)[0] == rs[0]);
        assert(rs.push(x).drop_first() =~= rs.drop_first().push(x));
        lemma_text_lines_rest_push(rs.drop_first(), x);
        assert(text_lines_rest(rs.push(x)) =~= text_lines_rest(rs) + seq!['\n'] + text_line(x));
    }
}

proof fn lemma_text_lines_push(rs: Seq<RecView>, x: RecView)
    ensures
        text_lines(rs.push(x)) == if rs.len() == 0 {
            text_line(x)
        } else {
            text_lines(rs) + seq!['\n'] + text_line(x)
        },
{
    if rs.len() == 0 {
        assert(rs.push(x)[0] == x);
        assert(rs.push(x).drop_first() =~= Seq::<RecView>::empty());
        assert(text_lines_rest(Seq::<RecView>::empty()) =~= Seq::<char>::empty());
        assert(text_lines(rs.push(x)) =~= text_line(x));
    } else {
        assert(rs.push(x)[0] == rs[0]);
        assert(rs.push(x).drop_first() =~= rs.drop_first().push(x));
        lemma_text_lines_rest_push(rs.drop_first(), x);
        assert(text_lines(rs.push(x)) =~= text_lines(rs) + seq!['\n'] + text_line(x));
    }
}

proof fn lemma_html_entries_rest_push(rs: Seq<RecView>, x: RecView)
    ensures
        html_entries_rest(rs.push(x)) == html_entries_rest(rs) + seq!['\n'] + html_entry(x),
    decreases rs.len(),
{
    if rs.len() == 0 {
        assert(rs.push(x)[0] == x);
        assert(rs.push(x).drop_first() =~= Seq::<RecView>::empty());
        assert(html_entries_rest(Seq::<RecView>::empty()) =~= Seq::<char>::empty());
        assert(html_entries_rest(rs.push(x)) =~= html_entries_rest(rs) + seq!['\n'] + html_entry(
            x,
        ));
    } else {
        assert(rs.push(x)[0] == rs[0]);
        assert(rs.push(x).drop_first() =~= rs.drop_first().push(x));
        lemma_html_entries_rest_push(rs.drop_first(), x);
        assert(html_entries_rest(rs.push(x)) =~= html_entries_rest(rs) + seq!['\n'] + html_entry(
            x,
        ));
    }
}

proof fn lemma_html_entries_push(rs: Seq<RecView>, x: RecView)
    ensures
        html_entries(rs.push(x)) == if rs.len() == 0 {
            html_entry(x)
        } else {
            html_entries(rs) + seq!['\n'] + html_entry(x)
        },
{
    if rs.len() == 0 {
        assert(rs.push(x)[0] == x);
        assert(rs.push(x).drop_first() =~= Seq::<RecView>::empty());
        assert(html_entries_rest(Seq::<RecView>::empty()) =~= Seq::<char>::empty());
        assert(html_entries(rs.push(x)) =~= html_entry(x));
    } else {
        assert(rs.push(x)[0] == rs[0]);
        assert(rs.push(x).drop_first() =~= rs.drop_first().push(x));
        lemma_html_entries_rest_push(rs.drop_first(), x);
        assert(html_entries(rs.push(x)) =~= html_entries(rs) + seq!['\n'] + html_entry(x));
    }
}

/// Composes the notification for a target's fresh records: the subject
/// names the count, whether any entry carries a comment or rating, and the
/// display title; the two bodies list every fresh record and the page
/// address.
pub fn compose_alert(display: &str, url: &str, fresh: &RecordSet) -> (r: AlertMessage)
    ensures
        r.subject@ == subject_spec(fresh@.len(), any_rich(fresh@), display@),
        r.text_body@ == text_body_spec(display@, fresh@, url@),
        r.html_body@ == html_body_spec(display@, fresh@, url@),
{
    let n = fresh.records.len();
    let rich = any_rich_exec(fresh);

    let mut subject: Vec<char> = Vec::new();
    text::append_str(&mut subject, "\u{1f6a8} ");
    snapshot::push_dec_u64(&mut subject, n as u64);
    text::append_str(&mut subject, " New DJ");
    if n != 1 {
        text::append_str(&mut subject, "s");
    }
    text::append_str(&mut subject, " ");
    if rich {
        text::append_str(&mut subject, "Support/Comment");
    } else {
        text::append_str(&mut subject, "Added");
    }
    text::append_str(&mut subject, " for ");
    text::append_str(&mut subject, display);
    proof {
        if n == 1 {
            reveal_strlit("");
            assert(""@ =~= Seq::<char>::empty());
        }
        assert(subject@ =~= subject_spec(fresh@.len(), any_rich(fresh@), display@));
    }

    let mut lines: Vec<char> = Vec::new();
    let mut entries: Vec<char> = Vec::new();
    let mut i: usize = 0;
    proof {
        assert(fresh@.take(0) =~= Seq::<RecView>::empty());
        assert(lines@ =~= text_lines(fresh@.take(0)));
        assert(entries@ =~= html_entries(fresh@.take(0)));
    }
    while i < n
        invariant
            n == fresh.records.len(),
            n == fresh@.len(),
            i <= n,
            lines@ =~= text_lines(fresh@.take(i as int)),
            entries@ =~= html_entries(fresh@.take(i as int)),
        decreases n - i,
    {
        proof {
            assert(fresh@.take(i as int).push(fresh@[i as int]) =~= fresh@.take(i as int + 1));
            assert(fresh.records@[i as int]@ == fresh@[i as int]);
            lemma_text_lines_push(fresh@.take(i as int), fresh@[i as int]);
            lemma_html_entries_push(fresh@.take(i as int), fresh@[i as int]);
        }
        if i > 0 {
            lines.push('\n');
            entries.push('\n');
        }
        push_text_line(&mut lines, &fresh.records[i]);
        push_html_entry(&mut entries, &fresh.records[i]);
        i += 1;
        proof {
            assert(lines@ =~= text_lines(fresh@.take(i as int)));
            assert(entries@ =~= html_entries(fresh@.take(i as int)));
        }
    }
    proof {
        assert(fresh@.take(n as int) =~= fresh@);
    }

    let mut body: Vec<char> = Vec::new();
    text::append_str(&mut body, "\u{1f6a8} New DJ support detected on Inflyte!\n\nTrack: ");
    text::append_str(&mut body, display);
    text::append_str(&mut body, "\n\n");
    let mut j: usize = 0;
    let ghost base = body@;
    let ln = lines.len();
    while j < ln
        invariant
            ln == lines.len(),
            j <= ln,
            body@ =~= base + lines@.take(j as int),
        decreases ln - j,
    {
        body.push(lines[j]);
        j += 1;
    }
    proof {
        assert(lines@.take(ln as int) =~= lines@);
    }
    text::append_str(&mut body, "\n\nTotal new additions: ");
    snapshot::push_dec_u64(&mut body, n as u64);
    text::append_str(&mut body, "\n\nView at: ");
    text::append_str(&mut body, url);
    proof {
        assert(body@ =~= text_body_spec(display@, fresh@, url@));
    }

    let mut html: Vec<char> = Vec::new();
    text::append_str(
        &mut html,
        "<!DOCTYPE html>\n<html>\n<head>\n    <style>\n        body { font-family: Arial, sans-serif; line-height: 1.6; color: #333; }\n        .container { max-width: 600px; margin: 0 auto; padding: 20px; }\n        .header { background: linear-gradient(135deg, #667eea 0%, #764ba2 100%); color: white; padding: 20px; border-radius: 8px 8px 0 0; }\n        .content { background: #f9f9f9; padding: 20px; border-radius: 0 0 8px 8px; }\n        .dj-list { background: white; padding: 15px; border-left: 4px solid #667eea; margin: 15px 0; }\n        .dj-item { margin: 8px 0; }\n        .campaign { color: #667eea; font-weight: bold; }\n        .footer { text-align: center; margin-top: 20px; color: #666; font-size: 12px; }\n    </style>\n</head>\n<body>\n    <div class=\"container\">\n        <div class=\"header\">\n            <h1>\u{1f3b5} Inflyte DJ Monitor Alert</h1>\n        </div>\n        <div class=\"content\">\n            <p><strong>New DJs have been added to the Support section!</strong></p>\n            <p class=\"campaign\">Track: ",
    );
    text::append_str(&mut html, display);
    text::append_str(
        &mut html,
        "</p>\n            <div class=\"dj-list\">\n                <h3>New Support (",
    );
    snapshot::push_dec_u64(&mut html, n as u64);
    text::append_str(&mut html, ")</h3>\n");
    let mut k: usize = 0;
    let ghost base2 = html@;
    let en = entries.len();
    while k < en
        invariant
            en == entries.len(),
            k <= en,
            html@ =~= base2 + entries@.take(k as int),
        decreases en - k,
    {
        html.push(entries[k]);
        k += 1;
    }
    proof {
        assert(entries@.take(en as int) =~= entries@);
    }
    text::append_str(
        &mut html,
        "\n            </div>\n            <p>View the full list at: <a href=\"",
    );
    text::append_str(&mut html, url);
    text::append_str(&mut html, "\">");
    text::append_str(&mut html, url);
    text::append_str(
        &mut html,
        "</a></p>\n        </div>\n        <div class=\"footer\">\n            <p>This is an automated notification from your Inflyte DJ Monitor</p>\n        </div>\n    </div>\n</body>\n</html>",
    );
    proof {
        assert(html@ =~= html_body_spec(display@, fresh@, url@));
    }

    AlertMessage {
        subject: text::string_of(&subject),
        text_body: text::string_of(&body),
        html_body: text::string_of(&html),
    }
}

} // verus!
