//! The templating engine: compiles text holding `{name}` (HTML-escaped on
//! render) and `@{name}` (raw) placeholders into a literal text plus an
//! ordered list of placeholder records, and renders it against bindings.
//!
//! Compilation repeatedly removes the leftmost placeholder from the text and
//! records the byte-free character offset at which it stood in the text as
//! shortened so far; rendering splices the bound values back in, last record
//! first, so earlier offsets stay valid.

use vstd::prelude::*;

verus! {

/// Characters a placeholder name may consist of: `[a-zA-Z0-9_]`.
pub open spec fn is_name_char(c: char) -> bool {
    (('a' as u32) <= (c as u32) && (c as u32) <= ('z' as u32)) || (('A' as u32) <= (c as u32)
        && (c as u32) <= ('Z' as u32)) || (('0' as u32) <= (c as u32) && (c as u32) <= ('9' as u32))
        || c == '_'
}

/// End of the run of name characters starting at `i`.
pub open spec fn name_run_end(s: Seq<char>, i: int) -> int
    decreases s.len() - i,
{
    if 0 <= i && i < s.len() && is_name_char(s[i]) {
        name_run_end(s, i + 1)
    } else {
        i
    }
}

/// For a `{` at position `j`: the position one past the closing `}` of a
/// well-formed placeholder body `{name}`, if one starts there.
pub open spec fn brace_match_end(s: Seq<char>, j: int) -> Option<int> {
    let k = name_run_end(s, j + 1);
    if k > j + 1 && k < s.len() && s[k] == '}' {
        Some(k + 1)
    } else {
        None
    }
}

/// A placeholder match starting exactly at `i`: `(end, name, unescaped)`.
/// `@{name}` is preferred over `{name}` at the same start, as the scanner's
/// optional leading `@` demands.
pub open spec fn match_at(s: Seq<char>, i: int) -> Option<(int, Seq<char>, bool)> {
    if 0 <= i && i + 1 < s.len() && s[i] == '@' && s[i + 1] == '{' && brace_match_end(s, i + 1)
        is Some {
        match brace_match_end(s, i + 1) {
            Some(e) => Some((e, s.subrange(i + 2, e - 1), true)),
            None => None,
        }
    } else if 0 <= i && i < s.len() && s[i] == '{' {
        match brace_match_end(s, i) {
            Some(e) => Some((e, s.subrange(i + 1, e - 1), false)),
            None => None,
        }
    } else {
        None
    }
}

/// The leftmost placeholder match at or after `i`: `(start, end, name, unescaped)`.
pub open spec fn first_match_from(s: Seq<char>, i: int) -> Option<(int, int, Seq<char>, bool)>
    decreases s.len() - i,
{
    if i < 0 || i >= s.len() {
        None
    } else {
        match match_at(s, i) {
            Some(m) => Some((i, m.0, m.1, m.2)),
            None => first_match_from(s, i + 1),
        }
    }
}

/// The leftmost placeholder match in `s`.
pub open spec fn first_match(s: Seq<char>) -> Option<(int, int, Seq<char>, bool)> {
    first_match_from(s, 0)
}

pub proof fn lemma_first_match_from_bounds(s: Seq<char>, i: int)
    ensures
        first_match_from(s, i) matches Some(m) ==> i <= m.0 && m.0 + 3 <= m.1 <= s.len(),
    decreases s.len() - i,
{
    if 0 <= i && i < s.len() {
        lemma_first_match_from_bounds(s, i + 1);
    }
}

/// Bounds of the leftmost match: the matched text is at least `{c}` long and
/// lies inside `s`.
pub proof fn lemma_first_match_bounds(s: Seq<char>)
    ensures
        first_match(s) matches Some(m) ==> 0 <= m.0 && m.0 + 3 <= m.1 <= s.len(),
{
    lemma_first_match_from_bounds(s, 0);
}

/// The compiled form of `s`: the literal text with every placeholder removed,
/// and the records `(offset, name, unescaped)` in order of removal. Each
/// offset is measured in the text as shortened by the removals before it.
pub open spec fn spec_compile(s: Seq<char>) -> (Seq<char>, Seq<(int, Seq<char>, bool)>)
    decreases s.len() via spec_compile_dec
{
    match first_match(s) {
        None => (s, Seq::empty()),
        Some((st, en, name, u)) => {
            let rest = spec_compile(s.subrange(0, st) + s.subrange(en, s.len() as int));
            (rest.0, seq![(st, name, u)] + rest.1)
        },
    }
}

#[via_fn]
proof fn spec_compile_dec(s: Seq<char>) {
    lemma_first_match_bounds(s);
}

/// The HTML escape of one character: `&`, `<`, `>`, `"` and `'` become
/// entities, every other character stands as itself.
pub open spec fn escape_char(c: char) -> Seq<char> {
    if c == '&' {
        seq!['&', 'a', 'm', 'p', ';']
    } else if c == '<' {
        seq!['&', 'l', 't', ';']
    } else if c == '>' {
        seq!['&', 'g', 't', ';']
    } else if c == '"' {
        seq!['&', 'q', 'u', 'o', 't', ';']
    } else if c == '\'' {
        seq!['&', '#', '3', '9', ';']
    } else {
        seq![c]
    }
}

/// The HTML escape of a text, character by character.
pub open spec fn spec_escape(s: Seq<char>) -> Seq<char>
    decreases s.len(),
{
    if s.len() == 0 {
        Seq::empty()
    } else {
        spec_escape(s.drop_last()) + escape_char(s.last())
    }
}

/// `t` with `val` inserted at offset `off`, clamped to the end of `t`.
pub open spec fn seq_insert_at(t: Seq<char>, off: int, val: Seq<char>) -> Seq<char> {
    let j = if 0 <= off && off <= t.len() {
        off
    } else {
        t.len() as int
    };
    t.subrange(0, j) + val + t.subrange(j, t.len() as int)
}

/// What a placeholder record contributes on render: the bound value, escaped
/// unless the record asked for the raw form.
pub open spec fn binding_value(v: (int, Seq<char>, bool), b: Map<Seq<char>, Seq<char>>) -> Seq<
    char,
> {
    if v.2 {
        b[v.1]
    } else {
        spec_escape(b[v.1])
    }
}

/// Splices the records' values into `t`, last record first, so that every
/// earlier record's offset still points into unchanged text. Fails with the
/// name of the first record, in that order, whose name is unbound.
pub open spec fn spec_splice(
    t: Seq<char>,
    vars: Seq<(int, Seq<char>, bool)>,
    b: Map<Seq<char>, Seq<char>>,
) -> Result<Seq<char>, Seq<char>>
    decreases vars.len(),
{
    if vars.len() == 0 {
        Ok(t)
    } else {
        let v = vars.last();
        if !b.contains_key(v.1) {
            Err(v.1)
        } else {
            spec_splice(seq_insert_at(t, v.0, binding_value(v, b)), vars.drop_last(), b)
        }
    }
}

/// The rendering of a compiled template against bindings.
pub open spec fn spec_render(
    tpl: (Seq<char>, Seq<(int, Seq<char>, bool)>),
    b: Map<Seq<char>, Seq<char>>,
) -> Result<Seq<char>, Seq<char>> {
    spec_splice(tpl.0, tpl.1, b)
}

/// The concatenation of one render per binding set, in order; fails with the
/// first failing render's error.
pub open spec fn spec_render_many(
    tpl: (Seq<char>, Seq<(int, Seq<char>, bool)>),
    bs: Seq<Map<Seq<char>, Seq<char>>>,
) -> Result<Seq<char>, Seq<char>>
    decreases bs.len(),
{
    if bs.len() == 0 {
        Ok(Seq::empty())
    } else {
        match spec_render(tpl, bs[0]) {
            Err(n) => Err(n),
            Ok(t) => match spec_render_many(tpl, bs.drop_first()) {
                Err(n) => Err(n),
                Ok(r) => Ok(t + r),
            },
        }
    }
}

/// A rendering failure: the template referenced a name the bindings lack.
#[derive(Debug, Clone, PartialEq, Eq)]
pub enum TemplateError {
    UndefinedVariable(String),
}

impl TemplateError {
    /// The name of the unbound variable.
    pub fn variable(&self) -> (r: &String)
        ensures
            self matches TemplateError::UndefinedVariable(n) && r@ == n@,
    {
        match self {
            TemplateError::UndefinedVariable(n) => n,
        }
    }
}

/// First match wins among the pairs, as a recursive lookup.
pub open spec fn spec_lookup(pairs: Seq<(Seq<char>, Seq<char>)>, k: Seq<char>) -> Option<
    Seq<char>,
>
    decreases pairs.len(),
{
    if pairs.len() == 0 {
        None
    } else if pairs[0].0 == k {
        Some(pairs[0].1)
    } else {
        spec_lookup(pairs.drop_first(), k)
    }
}

/// The maps of a run of binding sets, in order.
pub open spec fn binding_views(bs: Seq<Bindings>) -> Seq<Map<Seq<char>, Seq<char>>>
    decreases bs.len(),
{
    if bs.len() == 0 {
        Seq::empty()
    } else {
        binding_views(bs.drop_last()).push(bs.last()@)
    }
}

/// [`binding_views`] maps the binding sets one for one.
pub proof fn lemma_binding_views_index(bs: Seq<Bindings>)
    ensures
        binding_views(bs).len() == bs.len(),
        forall|j: int| 0 <= j < bs.len() ==> binding_views(bs)[j] == bs[j]@,
    decreases bs.len(),
{
    if bs.len() > 0 {
        lemma_binding_views_index(bs.drop_last());
    }
}

/// A name-to-value binding set for rendering. Viewed as a map from names to
/// values; a later `insert` of a name shadows the earlier one.
pub struct Bindings {
    pairs: Vec<(String, String)>,
}

impl Bindings {
    pub closed spec fn pairs_view(&self) -> Seq<(Seq<char>, Seq<char>)> {
        self.pairs@.map_values(|p: (String, String)| (p.0@, p.1@))
    }
}

impl View for Bindings {
    type V = Map<Seq<char>, Seq<char>>;

    closed spec fn view(&self) -> Map<Seq<char>, Seq<char>> {
        Map::new(
            |k: Seq<char>| spec_lookup(self.pairs_view(), k) is Some,
            |k: Seq<char>| spec_lookup(self.pairs_view(), k).unwrap(),
        )
    }
}

impl Bindings {
    /// An empty binding set.
    pub fn new() -> (r: Bindings)
        ensures
            r@ == Map::<Seq<char>, Seq<char>>::empty(),
    {
        let r = Bindings { pairs: Vec::new() };
        proof {
            assert(r@ =~= Map::<Seq<char>, Seq<char>>::empty());
        }
        r
    }

    /// Binds `key` to `value`; an existing binding of `key` is shadowed.
    pub fn insert(&mut self, key: &str, value: &str)
        ensures
            final(self)@ == old(self)@.insert(key@, value@),
    {
        let ghost old_pairs = self.pairs_view();
        self.pairs.insert(0, (String::from_str(key), String::from_str(value)));
        proof {
            assert(self.pairs_view() =~= seq![(key@, value@)] + old_pairs);
            assert(self.pairs_view().drop_first() =~= old_pairs);
            assert(self@ =~= old(self)@.insert(key@, value@));
        }
    }

    /// Looks `key` up, first binding first.
    pub fn get<'a>(&'a self, key: &str) -> (r: Option<&'a String>)
        ensures
            (match r {
                Some(v) => self@.contains_key(key@) && self@[key@] == v@,
                None => !self@.contains_key(key@),
            }),
    {
        let k = String::from_str(key);
        let n = self.pairs.len();
        let mut i: usize = 0;
        proof {
            assert(self.pairs_view().skip(0) =~= self.pairs_view());
        }
        while i < n
            invariant
                0 <= i <= n,
                n == self.pairs@.len(),
                k@ == key@,
                spec_lookup(self.pairs_view(), key@) == spec_lookup(
                    self.pairs_view().skip(i as int),
                    key@,
                ),
            decreases n - i,
        {
            let p = &self.pairs[i];
            proof {
                assert(self.pairs_view().skip(i as int)[0] == (p.0@, p.1@));
                assert(self.pairs_view().skip(i as int).drop_first() =~= self.pairs_view().skip(
                    i + 1 as int,
                ));
            }
            if p.0 == k {
                return Some(&p.1);
            }
            i = i + 1;
        }
        proof {
            assert(self.pairs_view().skip(n as int) =~= Seq::<(Seq<char>, Seq<char>)>::empty());
        }
        None
    }
}

/// The HTML escape of `s`: `&`, `<`, `>`, `"` and `'` become entities.
pub fn html_escape(s: &str) -> (r: String)
    ensures
        r@ == spec_escape(s@),
{
    let n = s.unicode_len();
    let mut r = String::new();
    let mut i: usize = 0;
    while i < n
        invariant
            0 <= i <= n,
            n == s@.len(),
            r@ == spec_escape(s@.subrange(0, i as int)),
        decreases n - i,
    {
        let c = s.get_char(i);
        if c == '&' {
            r.append("&amp;");
        } else if c == '<' {
            r.append("&lt;");
        } else if c == '>' {
            r.append("&gt;");
        } else if c == '"' {
            r.append("&quot;");
        } else if c == '\'' {
            r.append("&#39;");
        } else {
            r.append(s.substring_char(i, i + 1));
        }
        proof {
            reveal_strlit("&amp;");
            reveal_strlit("&lt;");
            reveal_strlit("&gt;");
            reveal_strlit("&quot;");
            reveal_strlit("&#39;");
            assert(s@.subrange(0, i + 1 as int).drop_last() =~= s@.subrange(0, i as int));
            assert(s@.subrange(i as int, i + 1 as int) =~= seq![c]);
            assert(r@ =~= spec_escape(s@.subrange(0, i + 1 as int)));
        }
        i = i + 1;
    }
    proof {
        assert(s@.subrange(0, n as int) =~= s@);
    }
    r
}

/// One placeholder record of a compiled template.
struct TemplateVar {
    offset: usize,
    name: String,
    unescaped: bool,
}

impl View for TemplateVar {
    type V = (int, Seq<char>, bool);

    closed spec fn view(&self) -> (int, Seq<char>, bool) {
        (self.offset as int, self.name@, self.unescaped)
    }
}

/// A compiled template: immutable once built, safe to render repeatedly.
pub struct Template {
    template: String,
    vars: Vec<TemplateVar>,
}

impl View for Template {
    type V = (Seq<char>, Seq<(int, Seq<char>, bool)>);

    closed spec fn view(&self) -> (Seq<char>, Seq<(int, Seq<char>, bool)>) {
        (self.template@, self.vars@.map_values(|v: TemplateVar| v@))
    }
}

/// Exec test for [`is_name_char`].
fn name_char(c: char) -> (b: bool)
    ensures
        b == is_name_char(c),
{
    let u = c as u32;
    (97 <= u && u <= 122) || (65 <= u && u <= 90) || (48 <= u && u <= 57) || c == '_'
}

/// For a `{` at `j`, the end of a placeholder body starting there, as
/// [`brace_match_end`] gives it.
fn scan_brace_end(t: &str, j: usize) -> (r: Option<usize>)
    requires
        j < t@.len(),
    ensures
        (match r {
            Some(e) => brace_match_end(t@, j as int) == Some(e as int),
            None => brace_match_end(t@, j as int) is None,
        }),
{
    let n = t.unicode_len();
    let mut k: usize = j + 1;
    while k < n && name_char(t.get_char(k))
        invariant
            j + 1 <= k <= n,
            n == t@.len(),
            name_run_end(t@, j + 1 as int) == name_run_end(t@, k as int),
        decreases n - k,
    {
        k = k + 1;
    }
    if k > j + 1 && k < n && t.get_char(k) == '}' {
        Some(k + 1)
    } else {
        None
    }
}

/// The leftmost placeholder match in `t`, as [`first_match`] gives it.
fn find_match(t: &str) -> (r: Option<(usize, usize, String, bool)>)
    ensures
        (match r {
            Some((st, en, name, u)) => first_match(t@) == Some(
                (st as int, en as int, name@, u),
            ),
            None => first_match(t@) is None,
        }),
{
    let n = t.unicode_len();
    let mut i: usize = 0;
    while i < n
        invariant
            0 <= i <= n,
            n == t@.len(),
            first_match(t@) == first_match_from(t@, i as int),
        decreases n - i,
    {
        let c = t.get_char(i);
        if c == '@' && i + 1 < n && t.get_char(i + 1) == '{' {
            match scan_brace_end(t, i + 1) {
                Some(e) => {
                    assert(i + 4 <= e <= n);
                    let name = String::from_str(t.substring_char(i + 2, e - 1));
                    return Some((i, e, name, true));
                },
                None => {},
            }
        } else if c == '{' {
            match scan_brace_end(t, i) {
                Some(e) => {
                    assert(i + 3 <= e <= n);
                    let name = String::from_str(t.substring_char(i + 1, e - 1));
                    return Some((i, e, name, false));
                },
                None => {},
            }
        }
        assert(match_at(t@, i as int) is None);
        i = i + 1;
    }
    None
}

impl Template {
    /// Compiles one template: repeatedly removes the leftmost placeholder
    /// from the text, recording its offset, name and form, until none is
    /// left. Unknown syntax is left verbatim; compilation never fails.
    pub fn one(text: &str) -> (r: Template)
        ensures
            r@ == spec_compile(text@),
    {
        let mut template = String::from_str(text);
        let mut vars: Vec<TemplateVar> = Vec::new();
        loop
            invariant
                spec_compile(text@).0 == spec_compile(template@).0,
                spec_compile(text@).1 == vars@.map_values(|v: TemplateVar| v@) + spec_compile(
                    template@,
                ).1,
            ensures
                first_match(template@) is None,
                spec_compile(text@).0 == spec_compile(template@).0,
                spec_compile(text@).1 == vars@.map_values(|v: TemplateVar| v@) + spec_compile(
                    template@,
                ).1,
            decreases template@.len(),
        {
            match find_match(template.as_str()) {
                None => {
                    break ;
                },
                Some((st, en, name, unescaped)) => {
                    proof {
                        lemma_first_match_bounds(template@);
                    }
                    let n = template.unicode_len();
                    let pre = String::from_str(template.as_str().substring_char(0, st));
                    let next = pre.concat(template.as_str().substring_char(en, n));
                    let ghost old_vars = vars@;
                    let ghost old_template = template@;
                    let ghost gname = name@;
                    vars.push(TemplateVar { offset: st, name, unescaped });
                    template = next;
                    proof {
                        assert(template@ =~= old_template.subrange(0, st as int)
                            + old_template.subrange(en as int, old_template.len() as int));
                        assert(spec_compile(old_template).0 == spec_compile(template@).0);
                        assert(spec_compile(old_template).1 =~= seq![(st as int, gname, unescaped)]
                            + spec_compile(template@).1);
                        assert(vars@.map_values(|v: TemplateVar| v@) =~= old_vars.map_values(
                            |v: TemplateVar| v@,
                        ).push((st as int, gname, unescaped)));
                        assert(spec_compile(text@).1 =~= vars@.map_values(|v: TemplateVar| v@)
                            + spec_compile(template@).1);
                    }
                },
            }
        }
        proof {
            assert(spec_compile(template@) == (template@, Seq::<(int, Seq<char>, bool)>::empty()));
            assert(spec_compile(text@).1 =~= vars@.map_values(|v: TemplateVar| v@));
        }
        Template { template, vars }
    }

    /// Renders the template against `replacements`: a copy of the literal
    /// text with every placeholder's bound value spliced in, escaped for the
    /// `{name}` form and raw for `@{name}`. Fails with
    /// [`TemplateError::UndefinedVariable`] as soon as a referenced name is
    /// unbound; a template without placeholders renders to its literal text.
    pub fn render(&self, replacements: &Bindings) -> (r: Result<String, TemplateError>)
        ensures
            (match (r, spec_render(self@, replacements@)) {
                (Ok(s), Ok(t)) => s@ == t,
                (Err(TemplateError::UndefinedVariable(v)), Err(n)) => v@ == n,
                _ => false,
            }),
    {
        let ghost vars_v = self@.1;
        let mut out = self.template.clone();
        let mut i: usize = self.vars.len();
        proof {
            assert(vars_v.take(i as int) =~= vars_v);
        }
        while i > 0
            invariant
                0 <= i <= self.vars@.len(),
                vars_v == self@.1,
                vars_v.len() == self.vars@.len(),
                spec_splice(out@, vars_v.take(i as int), replacements@) == spec_render(
                    self@,
                    replacements@,
                ),
            decreases i,
        {
            i = i - 1;
            let var = &self.vars[i];
            proof {
                assert(vars_v.take(i + 1 as int).last() == var@);
                assert(vars_v.take(i + 1 as int).drop_last() =~= vars_v.take(i as int));
            }
            match replacements.get(var.name.as_str()) {
                None => {
                    return Err(TemplateError::UndefinedVariable(var.name.clone()));
                },
                Some(value) => {
                    let piece = if var.unescaped {
                        value.clone()
                    } else {
                        html_escape(value.as_str())
                    };
                    let n = out.unicode_len();
                    let off = if var.offset <= n {
                        var.offset
                    } else {
                        n
                    };
                    let ghost old_out = out@;
                    let left = String::from_str(out.as_str().substring_char(0, off));
                    let mid = left.concat(piece.as_str());
                    out = mid.concat(out.as_str().substring_char(off, n));
                    proof {
                        assert(out@ =~= seq_insert_at(old_out, var@.0, binding_value(
                            var@,
                            replacements@,
                        )));
                    }
                },
            }
        }
        proof {
            assert(vars_v.take(0) =~= Seq::<(int, Seq<char>, bool)>::empty());
        }
        Ok(out)
    }

    /// Renders the template once per binding set, in order, and concatenates
    /// the results with no separator. Fails with the first failing render's
    /// error; over an empty sequence the result is empty.
    pub fn render_many(&self, replacements: &Vec<Bindings>) -> (r: Result<String, TemplateError>)
        ensures
            (match (r, spec_render_many(self@, binding_views(replacements@))) {
                (Ok(s), Ok(t)) => s@ == t,
                (Err(TemplateError::UndefinedVariable(v)), Err(n)) => v@ == n,
                _ => false,
            }),
    {
        let ghost bvs = binding_views(replacements@);
        let n = replacements.len();
        let mut acc = String::new();
        let mut j: usize = 0;
        proof {
            lemma_binding_views_index(replacements@);
            assert(bvs.skip(0) =~= bvs);
        }
        while j < n
            invariant
                0 <= j <= n,
                n == replacements@.len(),
                bvs == binding_views(replacements@),
                bvs.len() == n,
                forall|q: int| 0 <= q < n ==> bvs[q] == replacements@[q]@,
                (match spec_render_many(self@, bvs) {
                    Ok(t) => spec_render_many(self@, bvs.skip(j as int)) matches Ok(r) && t == acc@
                        + r,
                    Err(e) => spec_render_many(self@, bvs.skip(j as int)) matches Err(m) && m == e,
                }),
            decreases n - j,
        {
            proof {
                assert(bvs.skip(j as int)[0] == replacements@[j as int]@);
                assert(bvs.skip(j as int).drop_first() =~= bvs.skip(j + 1 as int));
            }
            match self.render(&replacements[j]) {
                Err(e) => {
                    return Err(e);
                },
                Ok(s) => {
                    acc = acc.concat(s.as_str());
                },
            }
            j = j + 1;
        }
        proof {
            assert(bvs.skip(n as int) =~= Seq::<Map<Seq<char>, Seq<char>>>::empty());
        }
        Ok(acc)
    }
}

/// A separator starts at `i`: the three characters `---` standing alone on a
/// line, that is bounded by the text's ends or by newlines.
pub open spec fn is_sep_at(s: Seq<char>, i: int) -> bool {
    0 <= i && i + 3 <= s.len() && s[i] == '-' && s[i + 1] == '-' && s[i + 2] == '-' && (i == 0 || s[
        i - 1] == '\n') && (i + 3 == s.len() || s[i + 3] == '\n')
}

/// The leftmost separator at or after `i`.
pub open spec fn first_sep_from(s: Seq<char>, i: int) -> Option<int>
    decreases s.len() - i,
{
    if i < 0 || i >= s.len() {
        None
    } else if is_sep_at(s, i) {
        Some(i)
    } else {
        first_sep_from(s, i + 1)
    }
}

proof fn lemma_first_sep_from_bounds(s: Seq<char>, i: int)
    ensures
        first_sep_from(s, i) matches Some(j) ==> i <= j && is_sep_at(s, j),
    decreases s.len() - i,
{
    if 0 <= i && i < s.len() && !is_sep_at(s, i) {
        lemma_first_sep_from_bounds(s, i + 1);
    }
}

/// The segments of a document: the texts between the `---` separator lines,
/// in order. A text without a separator is one segment; the separators
/// themselves are dropped, their surrounding newlines kept.
pub open spec fn spec_segments(s: Seq<char>) -> Seq<Seq<char>>
    decreases s.len() via spec_segments_dec
{
    match first_sep_from(s, 0) {
        None => seq![s],
        Some(j) => seq![s.subrange(0, j)] + spec_segments(s.subrange(j + 3, s.len() as int)),
    }
}

#[via_fn]
proof fn spec_segments_dec(s: Seq<char>) {
    lemma_first_sep_from_bounds(s, 0);
}

/// The leftmost separator in `t`, as [`first_sep_from`] gives it.
fn find_sep(t: &str) -> (r: Option<usize>)
    ensures
        (match r {
            Some(j) => first_sep_from(t@, 0) == Some(j as int),
            None => first_sep_from(t@, 0) is None,
        }),
{
    let n = t.unicode_len();
    let mut i: usize = 0;
    while i < n
        invariant
            0 <= i <= n,
            n == t@.len(),
            first_sep_from(t@, 0) == first_sep_from(t@, i as int),
        decreases n - i,
    {
        if n - i >= 3 && t.get_char(i) == '-' && t.get_char(i + 1) == '-' && t.get_char(i + 2)
            == '-' && (i == 0 || t.get_char(i - 1) == '\n') && (n - i == 3 || t.get_char(i + 3)
            == '\n') {
            return Some(i);
        }
        assert(!is_sep_at(t@, i as int));
        i = i + 1;
    }
    None
}

impl Template {
    /// Splits a document on lines consisting of exactly `---` and compiles
    /// each segment independently, preserving segment order.
    pub fn many(text: &str) -> (r: Vec<Template>)
        ensures
            r@.len() == spec_segments(text@).len(),
            forall|i: int|
                0 <= i < r@.len() ==> r@[i]@ == spec_compile(#[trigger] spec_segments(text@)[i]),
    {
        let mut rest = String::from_str(text);
        let mut out: Vec<Template> = Vec::new();
        proof {
            assert(spec_segments(text@).skip(0) =~= spec_segments(text@));
        }
        loop
            invariant_except_break
                out@.len() + spec_segments(rest@).len() == spec_segments(text@).len(),
                spec_segments(rest@) =~= spec_segments(text@).skip(out@.len() as int),
            invariant
                forall|i: int|
                    0 <= i < out@.len() ==> out@[i]@ == spec_compile(
                        #[trigger] spec_segments(text@)[i],
                    ),
            ensures
                out@.len() == spec_segments(text@).len(),
            decreases rest@.len(),
        {
            let ghost k = out@.len() as int;
            match find_sep(rest.as_str()) {
                None => {
                    proof {
                        assert(spec_segments(rest@) =~= seq![rest@]);
                        assert(spec_segments(text@).skip(k)[0] == spec_segments(text@)[k]);
                        assert(spec_segments(text@)[k] == rest@);
                        assert(spec_segments(text@).len() == k + 1);
                    }
                    out.push(Template::one(rest.as_str()));
                    break ;
                },
                Some(j) => {
                    proof {
                        lemma_first_sep_from_bounds(rest@, 0);
                    }
                    let n = rest.unicode_len();
                    let ghost old_rest = rest@;
                    let seg = rest.as_str().substring_char(0, j);
                    let tail = String::from_str(rest.as_str().substring_char(j + 3, n));
                    proof {
                        assert(spec_segments(old_rest) =~= seq![old_rest.subrange(0, j as int)]
                            + spec_segments(tail@));
                        assert(spec_segments(old_rest)[0] == old_rest.subrange(0, j as int));
                        assert(spec_segments(text@).skip(k)[0] == spec_segments(text@)[k]);
                        assert(seg@ == spec_segments(text@)[k]);
                        assert(spec_segments(old_rest).drop_first() =~= spec_segments(tail@));
                        assert(spec_segments(text@).skip(k).drop_first() =~= spec_segments(
                            text@,
                        ).skip(k + 1));
                    }
                    out.push(Template::one(seg));
                    rest = tail;
                },
            }
        }
        out
    }
}

/// A text without `{` holds no placeholder: it compiles to itself, with no
/// records.
pub proof fn lemma_compile_no_markers(s: Seq<char>)
    requires
        forall|i: int| 0 <= i < s.len() ==> s[i] != '{',
    ensures
        spec_compile(s) == (s, Seq::<(int, Seq<char>, bool)>::empty()),
{
    lemma_no_match_from(s, 0);
}

proof fn lemma_no_match_from(s: Seq<char>, i: int)
    requires
        forall|j: int| 0 <= j < s.len() ==> s[j] != '{',
    ensures
        first_match_from(s, i) is None,
    decreases s.len() - i,
{
    if 0 <= i && i < s.len() {
        lemma_no_match_from(s, i + 1);
    }
}

/// Compiling then rendering a text without placeholders gives the text back
/// unchanged, whatever the bindings.
pub proof fn lemma_render_no_markers(s: Seq<char>, b: Map<Seq<char>, Seq<char>>)
    requires
        forall|i: int| 0 <= i < s.len() ==> s[i] != '{',
    ensures
        spec_render(spec_compile(s), b) == Ok::<Seq<char>, Seq<char>>(s),
{
    lemma_compile_no_markers(s);
}

/// A template that references a name the bindings lack never renders: the
/// result is an error, not a silent blank substitution.
pub proof fn lemma_missing_binding_fails(
    tpl: (Seq<char>, Seq<(int, Seq<char>, bool)>),
    b: Map<Seq<char>, Seq<char>>,
)
    requires
        exists|i: int| 0 <= i < tpl.1.len() && !b.contains_key(#[trigger] tpl.1[i].1),
    ensures
        spec_render(tpl, b) is Err,
{
    lemma_splice_missing(tpl.0, tpl.1, b);
}

proof fn lemma_splice_missing(
    t: Seq<char>,
    vars: Seq<(int, Seq<char>, bool)>,
    b: Map<Seq<char>, Seq<char>>,
)
    requires
        exists|i: int| 0 <= i < vars.len() && !b.contains_key(#[trigger] vars[i].1),
    ensures
        spec_splice(t, vars, b) is Err,
    decreases vars.len(),
{
    let v = vars.last();
    if b.contains_key(v.1) {
        let i = choose|i: int| 0 <= i < vars.len() && !b.contains_key(#[trigger] vars[i].1);
        assert(vars.drop_last()[i] == vars[i]);
        lemma_splice_missing(seq_insert_at(t, v.0, binding_value(v, b)), vars.drop_last(), b);
    }
}

/// Rendering the concatenation of two runs of binding sets concatenates the
/// two runs' renderings, when both succeed, and fails as the earlier failing
/// run does.
pub proof fn lemma_render_many_append(
    tpl: (Seq<char>, Seq<(int, Seq<char>, bool)>),
    bs1: Seq<Map<Seq<char>, Seq<char>>>,
    bs2: Seq<Map<Seq<char>, Seq<char>>>,
)
    ensures
        spec_render_many(tpl, bs1 + bs2) == (match spec_render_many(tpl, bs1) {
            Err(n) => Err::<Seq<char>, Seq<char>>(n),
            Ok(t1) => match spec_render_many(tpl, bs2) {
                Err(n) => Err(n),
                Ok(t2) => Ok(t1 + t2),
            },
        }),
    decreases bs1.len(),
{
    if bs1.len() == 0 {
        assert(bs1 + bs2 =~= bs2);
        match spec_render_many(tpl, bs2) {
            Ok(t2) => {
                assert(Seq::<char>::empty() + t2 =~= t2);
            },
            Err(_) => {},
        }
    } else {
        assert((bs1 + bs2)[0] == bs1[0]);
        assert((bs1 + bs2).drop_first() =~= bs1.drop_first() + bs2);
        lemma_render_many_append(tpl, bs1.drop_first(), bs2);
        match (spec_render(tpl, bs1[0]), spec_render_many(tpl, bs1.drop_first()), spec_render_many(
            tpl,
            bs2,
        )) {
            (Ok(t0), Ok(t1), Ok(t2)) => {
                assert(t0 + (t1 + t2) =~= (t0 + t1) + t2);
            },
            _ => {},
        }
    }
}

} // verus!
