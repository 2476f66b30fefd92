use vstd::prelude::*;

use vstd::string::StringExecFns;

verus! {

broadcast use vstd::string::group_string_axioms;

/// The body of a rendering request.
pub struct Body {
    pub content: String,
}

/// The page around the content, up to the content.
pub open spec fn page_head() -> Seq<char> {
    "<html>\n  <head>\n    <title>CCH23 Day 14</title>\n  </head>\n  <body>\n    "@
}

/// The page around the content, after the content.
pub open spec fn page_tail() -> Seq<char> {
    "\n  </body>\n</html>"@
}

/// What HTML escaping makes of one character.
pub open spec fn html_escape_char(c: char) -> Seq<char> {
    if c == '<' {
        "&lt;"@
    } else if c == '>' {
        "&gt;"@
    } else if c == '&' {
        "&amp;"@
    } else if c == '"' {
        "&quot;"@
    } else if c == '\'' {
        "&#x27;"@
    } else {
        seq![c]
    }
}

/// `s` with the five HTML-special characters replaced by entities.
pub open spec fn html_escape(s: Seq<char>) -> Seq<char>
    decreases s.len(),
{
    if s.len() == 0 {
        Seq::empty()
    } else {
        html_escape(s.drop_last()) + html_escape_char(s.last())
    }
}

/// Escapes text with `askama`'s `MarkupDisplay` and its `Html` escaper. The
/// contract claims the escaping that the escaper's source performs:
/// `<`, `>`, `&`, `"` and `'` become `&lt;`, `&gt;`, `&amp;`, `&quot;` and
/// `&#x27;`, and every other character stays.
#[verifier::external_body]
fn escape_html(text: &str) -> (res: String)
    ensures
        res@ == html_escape(text@),
{
    askama::MarkupDisplay::new_unsafe(text, askama::Html).to_string()
}

/// The page with the content inserted as it is.
pub fn render_html_unsafe(data: &Body) -> (res: String)
    ensures
        res@ == page_head() + data.content@ + page_tail(),
{
    let mut page = "<html>\n  <head>\n    <title>CCH23 Day 14</title>\n  </head>\n  <body>\n    ".to_owned();
    page.append(data.content.as_str());
    page.append("\n  </body>\n</html>");
    page
}

/// The page with the content escaped.
pub fn render_html_safe(data: &Body) -> (res: String)
    ensures
        res@ == page_head() + html_escape(data.content@) + page_tail(),
{
    let escaped = escape_html(data.content.as_str());
    let mut page = "<html>\n  <head>\n    <title>CCH23 Day 14</title>\n  </head>\n  <body>\n    ".to_owned();
    page.append(escaped.as_str());
    page.append("\n  </body>\n</html>");
    page
}

/// Escaped text holds none of `<`, `>`, `"` and `'`, so content cannot open
/// or close a tag or an attribute value; text without any of the five special
/// characters comes through unchanged.
pub proof fn lemma_escaped_text_is_inert(s: Seq<char>)
    ensures
        forall|i: int|
            0 <= i < html_escape(s).len() ==> #[trigger] html_escape(s)[i] != '<' && html_escape(s)[i] != '>'
                && html_escape(s)[i] != '"' && html_escape(s)[i] != '\'',
        (forall|i: int|
            0 <= i < s.len() ==> #[trigger] s[i] != '<' && s[i] != '>' && s[i] != '&' && s[i] != '"' && s[i]
                != '\'') ==> html_escape(s) == s,
    decreases s.len(),
{
    reveal_strlit("&lt;");
    reveal_strlit("&gt;");
    reveal_strlit("&amp;");
    reveal_strlit("&quot;");
    reveal_strlit("&#x27;");
    if s.len() > 0 {
        let init = s.drop_last();
        lemma_escaped_text_is_inert(init);
        let e = html_escape(s);
        let a = html_escape(init);
        let b = html_escape_char(s.last());
        assert(e == a + b);
        assert forall|i: int| 0 <= i < e.len() implies #[trigger] e[i] != '<' && e[i] != '>' && e[i] != '"'
            && e[i] != '\'' by {
            if i < a.len() {
                assert(e[i] == a[i]);
            } else {
                assert(e[i] == b[i - a.len()]);
            }
        }
        if forall|i: int|
            0 <= i < s.len() ==> #[trigger] s[i] != '<' && s[i] != '>' && s[i] != '&' && s[i] != '"' && s[i]
                != '\'' {
            assert forall|i: int| 0 <= i < init.len() implies #[trigger] init[i] != '<' && init[i] != '>'
                && init[i] != '&' && init[i] != '"' && init[i] != '\'' by {
                assert(init[i] == s[i]);
            }
            assert(s[s.len() - 1] == s.last());
            assert(e =~= s);
        }
    }
}

} // verus!
