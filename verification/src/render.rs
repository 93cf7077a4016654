//! Template rendering with strict escaping: templates are registered
//! under a name, placeholders of the form `{{key}}` are replaced
//! left-to-right by the escaped variable values, and every substituted
//! value has its HTML metacharacters escaped first.

use vstd::prelude::*;

use crate::kvmap::lemma_views_insert;
use crate::kvmap::views_of;
use crate::kvmap::StrMap;
use crate::strutil::push_char;

verus! {

use vstd::string::StrSliceExecFns;
use vstd::string::StringExecFns;

/// `s` with every occurrence of `pat` replaced by `sub`, scanning left
/// to right without revisiting substituted text.
pub open spec fn replace_all(s: Seq<char>, pat: Seq<char>, sub: Seq<char>) -> Seq<char>
    recommends
        pat.len() >= 1,
    decreases s.len(),
{
    if pat.len() == 0 || s.len() < pat.len() {
        s
    } else if s.subrange(0, pat.len() as int) == pat {
        sub + replace_all(s.skip(pat.len() as int), pat, sub)
    } else {
        seq![s[0]] + replace_all(s.skip(1), pat, sub)
    }
}

/// `s` with every occurrence of `pat` replaced by `sub`.
pub fn replace_all_str(s: &str, pat: &str, sub: &str) -> (r: String)
    requires
        pat@.len() >= 1,
    ensures
        r@ == replace_all(s@, pat@, sub@),
{
    let n = s.unicode_len();
    let m = pat.unicode_len();
    let mut out = String::new();
    let mut i: usize = 0;
    proof {
        assert(s@.skip(0) =~= s@);
        assert(out@ + replace_all(s@.skip(0), pat@, sub@) =~= replace_all(s@, pat@, sub@));
    }
    while i < n
        invariant
            i <= n == s@.len(),
            m == pat@.len(),
            1 <= m,
            replace_all(s@, pat@, sub@) == out@ + replace_all(s@.skip(i as int), pat@, sub@),
        decreases n - i,
    {
        let mut hit = m <= n - i;
        if hit {
            let mut j: usize = 0;
            while j < m
                invariant
                    i + m <= n == s@.len(),
                    m == pat@.len(),
                    j <= m,
                    hit ==> forall|k: int| 0 <= k < j ==> s@[i + k] == pat@[k],
                    !hit ==> s@.subrange(i as int, i + m) != pat@,
                decreases m - j,
            {
                if s.get_char(i + j) != pat.get_char(j) {
                    proof {
                        assert(s@.subrange(i as int, i + m)[j as int] == s@[i + j]);
                    }
                    hit = false;
                }
                j += 1;
            }
        }
        if hit {
            proof {
                assert(s@.subrange(i as int, i + m) =~= pat@);
                let rest = s@.skip(i as int);
                assert(rest.subrange(0, m as int) =~= s@.subrange(i as int, i + m));
                assert(rest.skip(m as int) =~= s@.skip(i + m));
                assert(replace_all(rest, pat@, sub@) == sub@ + replace_all(
                    s@.skip(i + m),
                    pat@,
                    sub@,
                ));
            }
            out.append(sub);
            i += m;
        } else {
            let c = s.get_char(i);
            proof {
                let rest = s@.skip(i as int);
                assert(rest[0] == s@[i as int]);
                assert(rest.skip(1) =~= s@.skip(i + 1));
                if i + m <= n {
                    assert(rest.subrange(0, m as int) =~= s@.subrange(i as int, i + m));
                    assert(replace_all(rest, pat@, sub@) == seq![s@[i as int]] + replace_all(
                        s@.skip(i + 1),
                        pat@,
                        sub@,
                    ));
                } else {
                    assert(rest.len() < m);
                    assert(replace_all(rest, pat@, sub@) == rest);
                    assert(rest =~= seq![s@[i as int]] + s@.skip(i + 1));
                    assert(replace_all(s@.skip(i + 1), pat@, sub@) == s@.skip(i + 1));
                }
                assert(out@.push(c) =~= out@ + seq![s@[i as int]]);
            }
            push_char(&mut out, c);
            i += 1;
        }
    }
    proof {
        assert(s@.skip(n as int) =~= Seq::<char>::empty());
        assert(replace_all(Seq::<char>::empty(), pat@, sub@) == Seq::<char>::empty());
        assert(out@ =~= out@ + Seq::<char>::empty());
    }
    out
}

/// `s` with the five HTML metacharacters escaped, the ampersand first
/// so the later entities are not escaped again.
pub open spec fn html_escaped(s: Seq<char>) -> Seq<char> {
    replace_all(
        replace_all(
            replace_all(
                replace_all(replace_all(s, "&"@, "&amp;"@), "<"@, "&lt;"@),
                ">"@,
                "&gt;"@,
            ),
            "\""@,
            "&quot;"@,
        ),
        "'"@,
        "&#39;"@,
    )
}

/// Escapes the five HTML metacharacters in `input`.
fn escape_html_str(input: &str) -> (r: String)
    ensures
        r@ == html_escaped(input@),
{
    proof {
        reveal_strlit("&");
        reveal_strlit("<");
        reveal_strlit(">");
        reveal_strlit("\"");
        reveal_strlit("'");
    }
    let pass1 = replace_all_str(input, "&", "&amp;");
    let pass2 = replace_all_str(pass1.as_str(), "<", "&lt;");
    let pass3 = replace_all_str(pass2.as_str(), ">", "&gt;");
    let pass4 = replace_all_str(pass3.as_str(), "\"", "&quot;");
    replace_all_str(pass4.as_str(), "'", "&#39;")
}

/// The placeholder that a variable named `key` fills: `{{key}}`.
pub open spec fn placeholder_of(key: Seq<char>) -> Seq<char> {
    "{{"@ + key + "}}"@
}

/// `template` with each variable's placeholder replaced, in the order
/// the variables were registered, by the variable's escaped value.
pub open spec fn rendered_of(template: Seq<char>, vars: Seq<(String, String)>) -> Seq<char>
    decreases vars.len(),
{
    if vars.len() == 0 {
        template
    } else {
        replace_all(
            rendered_of(template, vars.drop_last()),
            placeholder_of(vars.last().0@),
            html_escaped(vars.last().1@),
        )
    }
}

/// Renders `template` with `variables`.
fn render_str(template: &str, variables: &StrMap<String>) -> (r: String)
    ensures
        r@ == rendered_of(template@, variables.entries()),
{
    let count = variables.entry_count();
    let mut rendered = template.to_owned();
    let mut i: usize = 0;
    while i < count
        invariant
            i <= count == variables.entries().len(),
            rendered@ == rendered_of(template@, variables.entries().subrange(0, i as int)),
        decreases count - i,
    {
        let entry = variables.entry_at(i);
        let safe_value = escape_html_str(entry.1.as_str());
        let pattern = "{{".to_owned().concat(entry.0.as_str()).concat("}}");
        proof {
            reveal_strlit("{{");
            reveal_strlit("}}");
            assert(pattern@ == placeholder_of(entry.0@));
            assert(pattern@.len() >= 1);
        }
        let next = replace_all_str(rendered.as_str(), pattern.as_str(), safe_value.as_str());
        proof {
            let pre = variables.entries().subrange(0, i as int);
            let cur = variables.entries().subrange(0, i + 1);
            assert(cur.drop_last() =~= pre);
            assert(cur.last() == variables.entries()[i as int]);
        }
        rendered = next;
        i += 1;
    }
    proof {
        assert(variables.entries().subrange(0, count as int) =~= variables.entries());
    }
    rendered
}

/// The HTML rendering engine: named templates, strict escaping.
pub struct HTMLRenderer {
    templates: StrMap<String>,
}

impl HTMLRenderer {
    /// The registered templates.
    pub closed spec fn table(&self) -> Map<Seq<char>, Seq<char>> {
        views_of(self.templates@)
    }

    /// No templates yet.
    pub fn new() -> (r: HTMLRenderer)
        ensures
            r.table() == Map::<Seq<char>, Seq<char>>::empty(),
    {
        let r = HTMLRenderer { templates: StrMap::new() };
        proof {
            assert(r.table() =~= Map::<Seq<char>, Seq<char>>::empty());
        }
        r
    }

    /// Registers (or replaces) a template under `name`.
    pub fn register_template(&mut self, name: &str, template: &str)
        ensures
            final(self).table() == old(self).table().insert(name@, template@),
    {
        let ghost before = self.templates@;
        self.templates.insert(name, template.to_owned());
        proof {
            lemma_views_insert(before, name@, self.templates@[name@]);
        }
    }

    /// Renders the named template with `variables`, every substituted
    /// value escaped.
    pub fn render(&self, name: &str, variables: &StrMap<String>) -> (r: Option<String>)
        ensures
            match r {
                Some(out) => self.table().contains_key(name@) && out@ == rendered_of(
                    self.table()[name@],
                    variables.entries(),
                ),
                None => !self.table().contains_key(name@),
            },
    {
        match self.templates.get(name) {
            Some(template) => Some(render_str(template.as_str(), variables)),
            None => None,
        }
    }

    /// Escapes the five HTML metacharacters in `input`.
    pub fn escape_html(&self, input: &str) -> (r: String)
        ensures
            r@ == html_escaped(input@),
    {
        escape_html_str(input)
    }
}

/// The general templating engine: the same contract as the HTML
/// renderer, kept as its own type so server-side templates and HTML
/// fragments can hold different template sets.
pub struct TemplatingEngine {
    templates: StrMap<String>,
}

impl TemplatingEngine {
    /// The registered templates.
    pub closed spec fn table(&self) -> Map<Seq<char>, Seq<char>> {
        views_of(self.templates@)
    }

    /// No templates yet.
    pub fn new() -> (r: TemplatingEngine)
        ensures
            r.table() == Map::<Seq<char>, Seq<char>>::empty(),
    {
        let r = TemplatingEngine { templates: StrMap::new() };
        proof {
            assert(r.table() =~= Map::<Seq<char>, Seq<char>>::empty());
        }
        r
    }

    /// Registers (or replaces) a template under `name`.
    pub fn register_template(&mut self, name: &str, template: &str)
        ensures
            final(self).table() == old(self).table().insert(name@, template@),
    {
        let ghost before = self.templates@;
        self.templates.insert(name, template.to_owned());
        proof {
            lemma_views_insert(before, name@, self.templates@[name@]);
        }
    }

    /// Renders the named template with `variables`, every substituted
    /// value escaped.
    pub fn render(&self, name: &str, variables: &StrMap<String>) -> (r: Option<String>)
        ensures
            match r {
                Some(out) => self.table().contains_key(name@) && out@ == rendered_of(
                    self.table()[name@],
                    variables.entries(),
                ),
                None => !self.table().contains_key(name@),
            },
    {
        match self.templates.get(name) {
            Some(template) => Some(render_str(template.as_str(), variables)),
            None => None,
        }
    }

    /// Escapes the five HTML metacharacters in `input`.
    pub fn escape_html(&self, input: &str) -> (r: String)
        ensures
            r@ == html_escaped(input@),
    {
        escape_html_str(input)
    }
}

} // verus!
