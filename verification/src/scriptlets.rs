//! Scriptlets: small script templates with numbered placeholders, kept in a
//! catalog under their names, and filled in with the arguments of a rule.
use vstd::prelude::*;
use vstd::hash_map::StringHashMap;
use vstd::slice::slice_subrange;
use vstd::string::{StrSliceExecFns, StringExecFns};
use crate::text::{
    char_at, char_is_whitespace, chars_of, has_prefix_at, is_whitespace, push_char,
    starts_with_at, string_of, texts, trim_bounds, trim_start, trimmed,
};

verus! {

/// Why no script comes out of a scriptlet invocation.
#[derive(Debug, Clone, Copy, PartialEq, Eq, Structural)]
pub enum ScriptletError {
    NoMatchingScriptlet,
    MissingScriptletName,
    WrongNumberOfArguments,
}

/// One part of a template: text to copy, or the number of the argument to
/// put in. Arguments are numbered from 1.
#[derive(Debug, PartialEq, Eq)]
pub enum ScriptletPart {
    Literal(String),
    Argument(usize),
}

/// A part of a template as plain values.
pub enum PartView {
    Literal(Seq<char>),
    Argument(usize),
}

impl View for ScriptletPart {
    type V = PartView;

    open spec fn view(&self) -> PartView {
        match self {
            ScriptletPart::Literal(text) => PartView::Literal(text@),
            ScriptletPart::Argument(index) => PartView::Argument(*index),
        }
    }
}

impl ScriptletPart {
    /// What the part contributes to the script. An argument must have a
    /// number that `args` holds an argument for.
    fn patched<'a>(&'a self, args: &'a [String]) -> (text: &'a str)
        requires
            self@ matches PartView::Argument(index) ==> 1 <= index <= args@.len(),
        ensures
            text@ == part_text(self@, texts(args@)),
    {
        match self {
            ScriptletPart::Literal(literal) => literal.as_str(),
            ScriptletPart::Argument(index) => args[*index - 1].as_str(),
        }
    }
}

/// The views of a sequence of parts.
pub open spec fn part_views(parts: Seq<ScriptletPart>) -> Seq<PartView> {
    parts.map_values(|p: ScriptletPart| p@)
}

/// The digits that number an argument: `1` to `9`.
pub open spec fn is_argument_digit(c: char) -> bool {
    '1' <= c <= '9'
}

/// The number that an argument digit stands for.
pub open spec fn argument_index(c: char) -> usize {
    (c as usize - '0' as usize) as usize
}

/// A placeholder stands at `i`: two opening braces, an argument digit, two
/// closing braces.
pub open spec fn is_placeholder_at(s: Seq<char>, i: int) -> bool {
    &&& 0 <= i
    &&& i + 5 <= s.len()
    &&& s[i] == '{'
    &&& s[i + 1] == '{'
    &&& is_argument_digit(s[i + 2])
    &&& s[i + 3] == '}'
    &&& s[i + 4] == '}'
}

/// The literal between `from` and `to`, as a list of no part or one: an
/// empty literal is no part.
pub open spec fn literal_part(s: Seq<char>, from: int, to: int) -> Seq<PartView> {
    if from < to {
        seq![PartView::Literal(s.subrange(from, to))]
    } else {
        Seq::<PartView>::empty()
    }
}

/// The parts of `s` from `literal_start` on, where the text between
/// `literal_start` and `from` is known to hold no placeholder. Placeholders
/// are taken from left to right and do not overlap.
pub open spec fn template_parts(s: Seq<char>, from: int, literal_start: int) -> Seq<PartView>
    decreases s.len() - from,
{
    if from < 0 || from >= s.len() {
        literal_part(s, literal_start, s.len() as int)
    } else if is_placeholder_at(s, from) {
        literal_part(s, literal_start, from) + seq![PartView::Argument(argument_index(s[from + 2]))]
            + template_parts(s, from + 5, from + 5)
    } else {
        template_parts(s, from + 1, literal_start)
    }
}

/// The parts of the template `s`.
pub open spec fn parse_template(s: Seq<char>) -> Seq<PartView> {
    template_parts(s, 0, 0)
}

/// The highest argument number among the parts; 0 where there is none.
pub open spec fn max_argument(parts: Seq<PartView>) -> usize
    decreases parts.len(),
{
    if parts.len() == 0 {
        0
    } else {
        let init = max_argument(parts.drop_last());
        match parts.last() {
            PartView::Argument(index) => if index > init { index } else { init },
            PartView::Literal(_) => init,
        }
    }
}

/// Every argument of the parts has a number from 1 to `limit`.
pub open spec fn arguments_within(parts: Seq<PartView>, limit: usize) -> bool {
    forall|i: int|
        0 <= i < parts.len() ==> ((#[trigger] parts[i]) matches PartView::Argument(index) ==> 1
            <= index <= limit)
}

/// What a part contributes to the script: its text, or the argument of its
/// number.
pub open spec fn part_text(part: PartView, args: Seq<Seq<char>>) -> Seq<char> {
    match part {
        PartView::Literal(text) => text,
        PartView::Argument(index) => args[index - 1],
    }
}

/// The script that the parts make with the arguments `args`.
pub open spec fn render(parts: Seq<PartView>, args: Seq<Seq<char>>) -> Seq<char>
    decreases parts.len(),
{
    if parts.len() == 0 {
        Seq::<char>::empty()
    } else {
        render(parts.drop_last(), args) + part_text(parts.last(), args)
    }
}

/// A parsed template as plain values.
pub struct ScriptletView {
    pub parts: Seq<PartView>,
    pub required_args: usize,
}

impl ScriptletView {
    /// What the template makes of the arguments: a script if there are as
    /// many as the template requires.
    pub open spec fn patch(self, args: Seq<Seq<char>>) -> Result<Seq<char>, ScriptletError> {
        if args.len() != self.required_args {
            Err(ScriptletError::WrongNumberOfArguments)
        } else {
            Ok(render(self.parts, args))
        }
    }
}

/// A template: literal texts with placeholders for arguments between them.
/// `required_args` is the number of arguments that it takes, not counting
/// the name of the scriptlet.
#[derive(Debug, PartialEq, Eq, Default)]
pub struct Scriptlet {
    parts: Vec<ScriptletPart>,
    required_args: usize,
}

impl View for Scriptlet {
    type V = ScriptletView;

    closed spec fn view(&self) -> ScriptletView {
        ScriptletView { parts: part_views(self.parts@), required_args: self.required_args }
    }
}

/// Adding a part keeps the arguments within the highest number.
proof fn lemma_max_argument_push(parts: Seq<PartView>, part: PartView)
    requires
        arguments_within(parts, max_argument(parts)),
        part matches PartView::Argument(index) ==> 1 <= index,
    ensures
        arguments_within(parts.push(part), max_argument(parts.push(part))),
        max_argument(parts.push(part)) == match part {
            PartView::Argument(index) => if index > max_argument(parts) {
                index
            } else {
                max_argument(parts)
            },
            PartView::Literal(_) => max_argument(parts),
        },
{
    assert(parts.push(part).drop_last() == parts);
}

impl Scriptlet {
    /// What holds of every template: its arguments are numbered from 1, and
    /// it requires as many as its highest number, 9 at most.
    #[verifier::type_invariant]
    spec fn inv(self) -> bool {
        &&& self.required_args == max_argument(part_views(self.parts@))
        &&& arguments_within(part_views(self.parts@), self.required_args)
        &&& self.required_args <= 9
    }

    /// Makes a template of parts that are already parsed. The arguments
    /// must be numbered from 1 to 9; else there is no such template.
    pub fn from_parts(parts: Vec<ScriptletPart>) -> (scriptlet: Option<Scriptlet>)
        ensures
            arguments_within(part_views(parts@), 9) ==> scriptlet is Some && scriptlet->0@.parts
                == part_views(parts@) && scriptlet->0@.required_args == max_argument(
                part_views(parts@),
            ),
            !arguments_within(part_views(parts@), 9) ==> scriptlet is None,
    {
        let ghost views = part_views(parts@);
        let mut required_args: usize = 0;
        let mut i: usize = 0;
        while i < parts.len()
            invariant
                i <= parts@.len(),
                views == part_views(parts@),
                required_args == max_argument(views.take(i as int)),
                arguments_within(views.take(i as int), required_args),
                required_args <= 9,
            decreases parts@.len() - i,
        {
            proof {
                assert(views.take(i + 1) =~= views.take(i as int).push(views[i as int]));
            }
            match &parts[i] {
                ScriptletPart::Literal(_) => {},
                ScriptletPart::Argument(index) => {
                    if *index < 1 || *index > 9 {
                        return None;
                    }
                    if *index > required_args {
                        required_args = *index;
                    }
                },
            }
            proof {
                lemma_max_argument_push(views.take(i as int), views[i as int]);
            }
            i += 1;
        }
        proof {
            assert(views.take(i as int) == views);
        }
        Some(Scriptlet { parts, required_args })
    }

    /// Parses a template. A placeholder is `{{n}}` with one digit `n` from 1
    /// to 9; all other text is literal, `{{0}}` and `{{10}}` too.
    pub fn parse(data: &str) -> (scriptlet: Scriptlet)
        ensures
            scriptlet@.parts == parse_template(data@),
            scriptlet@.required_args == max_argument(parse_template(data@)),
    {
        let chars = chars_of(data);
        let s = chars.as_slice();
        let n = s.len();
        let mut parts: Vec<ScriptletPart> = Vec::new();
        let mut required_args: usize = 0;
        let mut literal_start: usize = 0;
        let mut i: usize = 0;
        while i < n
            invariant
                literal_start <= i <= n == s@.len(),
                part_views(parts@) + template_parts(s@, i as int, literal_start as int)
                    == parse_template(s@),
                required_args == max_argument(part_views(parts@)),
                arguments_within(part_views(parts@), required_args),
                required_args <= 9,
            decreases n - i,
        {
            if n - i >= 5 && s[i] == '{' && s[i + 1] == '{' && s[i + 3] == '}' && s[i + 4] == '}' {
                let digit = char_at(s, i + 2);
                if digit >= '1' && digit <= '9' {
                    if literal_start < i {
                        let ghost views = part_views(parts@);
                        let text = string_of(s, literal_start, i);
                        parts.push(ScriptletPart::Literal(text));
                        proof {
                            assert(part_views(parts@) =~= views.push(PartView::Literal(text@)));
                            lemma_max_argument_push(views, PartView::Literal(text@));
                        }
                    }
                    let index = (digit as usize) - ('0' as usize);
                    let ghost views = part_views(parts@);
                    parts.push(ScriptletPart::Argument(index));
                    proof {
                        assert(part_views(parts@) =~= views.push(PartView::Argument(index)));
                        lemma_max_argument_push(views, PartView::Argument(index));
                    }
                    if index > required_args {
                        required_args = index;
                    }
                    i = i + 5;
                    literal_start = i;
                    continue ;
                }
            }
            i += 1;
        }
        if literal_start < n {
            let ghost views = part_views(parts@);
            let text = string_of(s, literal_start, n);
            parts.push(ScriptletPart::Literal(text));
            proof {
                assert(part_views(parts@) =~= views.push(PartView::Literal(text@)));
                lemma_max_argument_push(views, PartView::Literal(text@));
            }
        }
        Scriptlet { parts, required_args }
    }

    /// The parts of the template, in order. Their arguments are numbered
    /// from 1 to the number of arguments that the template takes.
    pub fn parts(&self) -> (parts: &Vec<ScriptletPart>)
        ensures
            part_views(parts@) == self@.parts,
            arguments_within(self@.parts, self@.required_args),
    {
        proof {
            use_type_invariant(self);
        }
        &self.parts
    }

    /// The number of arguments that the template takes: the highest number
    /// of an argument in it, 9 at most.
    pub fn required_args(&self) -> (count: usize)
        ensures
            count == self@.required_args,
            count == max_argument(self@.parts),
            count <= 9,
    {
        proof {
            use_type_invariant(self);
        }
        self.required_args
    }

    /// Fills the template in. `args` are the arguments of the invocation
    /// without the name of the scriptlet; there must be as many as the
    /// template requires.
    pub fn patch(&self, args: &[String]) -> (script: Result<String, ScriptletError>)
        ensures
            match self@.patch(texts(args@)) {
                Ok(text) => script matches Ok(s) && s@ == text,
                Err(e) => script == Err::<String, ScriptletError>(e),
            },
    {
        proof {
            use_type_invariant(self);
        }
        if args.len() != self.required_args {
            return Err(ScriptletError::WrongNumberOfArguments);
        }
        let ghost views = part_views(self.parts@);
        let ghost given = texts(args@);
        let mut script = String::new();
        let mut i: usize = 0;
        while i < self.parts.len()
            invariant
                i <= self.parts@.len(),
                views == part_views(self.parts@),
                given == texts(args@),
                arguments_within(views, args@.len() as usize),
                script@ == render(views.take(i as int), given),
            decreases self.parts@.len() - i,
        {
            proof {
                assert(views.take(i + 1).drop_last() == views.take(i as int));
                assert(views.take(i + 1).last() == self.parts@[i as int]@);
            }
            script.append(self.parts[i].patched(args));
            i += 1;
        }
        proof {
            assert(views.take(i as int) == views);
        }
        Ok(script)
    }
}

/// The characters that are taken out of every argument.
pub open spec fn is_escape_char(c: char) -> bool {
    c == '\\' || c == '\'' || c == '"'
}

/// `s` without backslashes and quotes.
pub open spec fn without_escapes(s: Seq<char>) -> Seq<char>
    decreases s.len(),
{
    if s.len() == 0 {
        Seq::<char>::empty()
    } else {
        let init = without_escapes(s.drop_last());
        if is_escape_char(s.last()) {
            init
        } else {
            init.push(s.last())
        }
    }
}

/// A comma separates two arguments unless a backslash stands in front of it.
pub open spec fn is_delimiter(s: Seq<char>, i: int) -> bool {
    s[i] == ',' && !(i > 0 && s[i - 1] == '\\')
}

/// The argument written between `from` and `to`: the text there without
/// white space at its ends, then without backslashes and quotes.
pub open spec fn argument(s: Seq<char>, from: int, to: int) -> Seq<char> {
    without_escapes(trimmed(s, from, to))
}

/// The arguments of `s` from `field_start` on, where no delimiter stands
/// between `field_start` and `from`. Text behind the last delimiter is an
/// argument unless there is none at all.
pub open spec fn split_arguments(s: Seq<char>, from: int, field_start: int) -> Seq<Seq<char>>
    decreases s.len() - from,
{
    if from < 0 || from >= s.len() {
        if field_start < s.len() {
            seq![argument(s, field_start, s.len() as int)]
        } else {
            Seq::<Seq<char>>::empty()
        }
    } else if is_delimiter(s, from) {
        seq![argument(s, field_start, from)] + split_arguments(s, from + 1, from + 1)
    } else {
        split_arguments(s, from + 1, field_start)
    }
}

/// The arguments of a scriptlet invocation, the name of the scriptlet first.
pub open spec fn scriptlet_args(s: Seq<char>) -> Seq<Seq<char>> {
    split_arguments(s, 0, 0)
}

/// Reads the argument written in `s[from..to]`.
fn read_argument(s: &[char], from: usize, to: usize) -> (arg: String)
    requires
        from <= to <= s@.len(),
    ensures
        arg@ == argument(s@, from as int, to as int),
{
    let (a, b) = trim_bounds(s, from, to);
    let ghost field = s@.subrange(a as int, b as int);
    let mut arg = String::new();
    let mut i: usize = a;
    while i < b
        invariant
            a <= i <= b <= s@.len(),
            field == s@.subrange(a as int, b as int),
            arg@ == without_escapes(field.take(i - a)),
        decreases b - i,
    {
        let c = s[i];
        proof {
            assert(field.take(i + 1 - a).drop_last() == field.take(i - a));
        }
        if !(c == '\\' || c == '\'' || c == '"') {
            push_char(&mut arg, c);
        }
        i += 1;
    }
    proof {
        assert(field.take(b - a) == field);
    }
    arg
}

/// Splits what stands between the brackets of `+js(...)` into arguments.
/// Commas separate them; `\,` is a comma inside an argument. White space
/// round an argument is dropped, and so is every backslash and quote.
pub fn parse_scriptlet_args(args: &str) -> (parsed: Vec<String>)
    ensures
        texts(parsed@) == scriptlet_args(args@),
        forall|i: int, j: int|
            0 <= i < parsed@.len() && 0 <= j < parsed@[i]@.len() ==> !is_escape_char(
                #[trigger] parsed@[i]@[j],
            ),
{
    let chars = chars_of(args);
    let s = chars.as_slice();
    let n = s.len();
    let mut parsed: Vec<String> = Vec::new();
    let mut field_start: usize = 0;
    let mut i: usize = 0;
    while i < n
        invariant
            field_start <= i <= n == s@.len(),
            texts(parsed@) + split_arguments(s@, i as int, field_start as int) == scriptlet_args(
                s@,
            ),
        decreases n - i,
    {
        if s[i] == ',' && !(i > 0 && s[i - 1] == '\\') {
            let arg = read_argument(s, field_start, i);
            parsed.push(arg);
            field_start = i + 1;
        }
        i += 1;
    }
    if field_start < n {
        let arg = read_argument(s, field_start, n);
        parsed.push(arg);
    }
    proof {
        assert(texts(parsed@) =~= scriptlet_args(s@));
        lemma_arguments_hold_no_escapes(s@, 0, 0);
        assert forall|i: int, j: int|
            0 <= i < parsed@.len() && 0 <= j < parsed@[i]@.len() implies !is_escape_char(
            #[trigger] parsed@[i]@[j],
        ) by {
            assert(texts(parsed@)[i] == parsed@[i]@);
        }
    }
    parsed
}

/// A name without the `.js` at its end, if it has one.
pub open spec fn without_js(name: Seq<char>) -> Seq<char> {
    if starts_with_at(name, name.len() - 3, ".js"@) {
        name.subrange(0, name.len() - 3)
    } else {
        name
    }
}

/// Drops the `.js` at the end of a scriptlet's name.
pub fn without_js_extension(scriptlet_name: &str) -> (name: &str)
    ensures
        name@ == without_js(scriptlet_name@),
{
    let chars = chars_of(scriptlet_name);
    let n = chars.len();
    if n >= 3 && has_prefix_at(chars.as_slice(), n - 3, ".js") {
        scriptlet_name.substring_char(0, n - 3)
    } else {
        scriptlet_name
    }
}

/// A catalog as plain values: the templates by name, and the names that
/// aliases stand for.
pub struct ScriptletsView {
    pub scriptlets: Map<Seq<char>, ScriptletView>,
    pub aliases: Map<Seq<char>, Seq<char>>,
}

impl ScriptletsView {
    /// The catalog without any template.
    pub open spec fn empty() -> ScriptletsView {
        ScriptletsView { scriptlets: Map::empty(), aliases: Map::empty() }
    }

    /// The name under which `name` is looked up: what it stands for if it
    /// is an alias, else itself.
    pub open spec fn resolve(self, name: Seq<char>) -> Seq<char> {
        if self.aliases.contains_key(name) {
            self.aliases[name]
        } else {
            name
        }
    }

    /// The script for the given arguments, the first of which names the
    /// scriptlet, with or without `.js`, by its name or by an alias.
    pub open spec fn get_scriptlet(self, args: Seq<Seq<char>>) -> Result<Seq<char>, ScriptletError> {
        if args.len() == 0 {
            Err(ScriptletError::MissingScriptletName)
        } else {
            let name = self.resolve(without_js(args[0]));
            if self.scriptlets.contains_key(name) {
                self.scriptlets[name].patch(args.skip(1))
            } else {
                Err(ScriptletError::NoMatchingScriptlet)
            }
        }
    }
}

/// `names` lists the keys `keys`: each of them once, and nothing else.
pub open spec fn lists_keys(names: Seq<Seq<char>>, keys: Set<Seq<char>>) -> bool {
    names.no_duplicates() && forall|k: Seq<char>| names.contains(k) <==> keys.contains(k)
}

/// Adds `name` to a list of keys unless it is known already.
fn note_name(names: &mut Vec<String>, name: &str, known: bool, Ghost(keys): Ghost<Set<Seq<char>>>)
    requires
        lists_keys(texts(old(names)@), keys),
        known == keys.contains(name@),
    ensures
        lists_keys(texts(final(names)@), keys.insert(name@)),
{
    if !known {
        let ghost before = texts(names@);
        names.push(String::from_str(name));
        proof {
            let after = texts(names@);
            assert(after =~= before.push(name@));
            assert forall|k: Seq<char>| after.contains(k) <==> keys.insert(name@).contains(k) by {
                if after.contains(k) {
                    let i = choose|i: int| 0 <= i < after.len() && after[i] == k;
                    if i < before.len() {
                        assert(before[i] == k);
                        assert(before.contains(k));
                    }
                }
                if before.contains(k) {
                    let i = choose|i: int| 0 <= i < before.len() && before[i] == k;
                    assert(after[i] == k);
                }
                if k == name@ {
                    assert(after[before.len() as int] == k);
                }
            }
            assert forall|i: int, j: int|
                0 <= i < after.len() && 0 <= j < after.len() && i != j implies after[i]
                != after[j] by {
                if i < before.len() && j < before.len() {
                    assert(before[i] != before[j]);
                } else if i < before.len() {
                    assert(before.contains(before[i]));
                } else {
                    assert(before.contains(before[j]));
                }
            }
        }
    } else {
        proof {
            assert(keys.insert(name@) =~= keys);
        }
    }
}

/// A set of parsed scriptlet templates, indexed by name, with the names
/// that aliases stand for.
pub struct Scriptlets {
    scriptlets: StringHashMap<Scriptlet>,
    aliases: StringHashMap<String>,
    /// The names under which there is a template, in the order in which they
    /// first came in.
    names: Vec<String>,
    /// The aliases, in the order in which they first came in.
    alias_names: Vec<String>,
}

impl View for Scriptlets {
    type V = ScriptletsView;

    closed spec fn view(&self) -> ScriptletsView {
        ScriptletsView {
            scriptlets: self.scriptlets@.map_values(|s: Scriptlet| s@),
            aliases: self.aliases@.map_values(|a: String| a@),
        }
    }
}

impl Default for Scriptlets {
    fn default() -> (catalog: Scriptlets)
        ensures
            catalog@ == ScriptletsView::empty(),
    {
        let catalog = Scriptlets {
            scriptlets: StringHashMap::new(),
            aliases: StringHashMap::new(),
            names: Vec::new(),
            alias_names: Vec::new(),
        };
        proof {
            assert(catalog@.scriptlets =~= Map::<Seq<char>, ScriptletView>::empty());
            assert(catalog@.aliases =~= Map::<Seq<char>, Seq<char>>::empty());
        }
        catalog
    }
}

impl Scriptlets {
    /// What holds of every catalog: its two lists of names list the keys of
    /// its two maps.
    #[verifier::type_invariant]
    spec fn inv(self) -> bool {
        &&& lists_keys(texts(self.names@), self.scriptlets@.dom())
        &&& lists_keys(texts(self.alias_names@), self.aliases@.dom())
    }

    /// Writes the script of an invocation: `scriptlet_args` is what stands
    /// between the brackets of `+js(...)`.
    pub fn get_scriptlet(&self, scriptlet_args: &str) -> (script: Result<String, ScriptletError>)
        ensures
            match self@.get_scriptlet(self::scriptlet_args(scriptlet_args@)) {
                Ok(text) => script matches Ok(s) && s@ == text,
                Err(e) => script == Err::<String, ScriptletError>(e),
            },
    {
        let parsed = parse_scriptlet_args(scriptlet_args);
        self.get_scriptlet_for_args(parsed.as_slice())
    }

    /// Writes the script for arguments that are already split, the name of
    /// the scriptlet first.
    pub fn get_scriptlet_for_args(&self, args: &[String]) -> (script: Result<String, ScriptletError>)
        ensures
            match self@.get_scriptlet(texts(args@)) {
                Ok(text) => script matches Ok(s) && s@ == text,
                Err(e) => script == Err::<String, ScriptletError>(e),
            },
    {
        if args.len() == 0 {
            return Err(ScriptletError::MissingScriptletName);
        }
        let scriptlet_name = without_js_extension(args[0].as_str());
        let rest = slice_subrange(args, 1, args.len());
        proof {
            assert(texts(rest@) =~= texts(args@).skip(1));
        }
        let template = match self.aliases.get(scriptlet_name) {
            Some(aliased_name) => self.scriptlets.get(aliased_name.as_str()),
            None => self.scriptlets.get(scriptlet_name),
        };
        match template {
            Some(template) => template.patch(rest),
            None => Err(ScriptletError::NoMatchingScriptlet),
        }
    }

    /// The names under which the catalog holds a template: each of them
    /// once, in the order in which they first came in.
    pub fn scriptlet_names(&self) -> (names: &Vec<String>)
        ensures
            lists_keys(texts(names@), self@.scriptlets.dom()),
    {
        proof {
            use_type_invariant(self);
            assert(self@.scriptlets.dom() =~= self.scriptlets@.dom());
        }
        &self.names
    }

    /// The template that the catalog holds under `name`, if it holds one.
    /// Aliases are not followed.
    pub fn scriptlet(&self, name: &str) -> (found: Option<&Scriptlet>)
        ensures
            match found {
                Some(template) => self@.scriptlets.contains_key(name@) && template@
                    == self@.scriptlets[name@],
                None => !self@.scriptlets.contains_key(name@),
            },
    {
        self.scriptlets.get(name)
    }

    /// The aliases of the catalog: each of them once, in the order in which
    /// they first came in.
    pub fn alias_names(&self) -> (names: &Vec<String>)
        ensures
            lists_keys(texts(names@), self@.aliases.dom()),
    {
        proof {
            use_type_invariant(self);
            assert(self@.aliases.dom() =~= self.aliases@.dom());
        }
        &self.alias_names
    }

    /// The name that `alias` stands for, if it is an alias.
    pub fn alias(&self, alias: &str) -> (found: Option<&String>)
        ensures
            match found {
                Some(name) => self@.aliases.contains_key(alias@) && name@ == self@.aliases[alias@],
                None => !self@.aliases.contains_key(alias@),
            },
    {
        self.aliases.get(alias)
    }

    /// Puts `scriptlet` into the catalog under `name`, in place of what was
    /// there under that name.
    pub fn add_scriptlet(&mut self, name: String, scriptlet: Scriptlet)
        ensures
            final(self)@ == (ScriptletsView {
                scriptlets: old(self)@.scriptlets.insert(name@, scriptlet@),
                ..old(self)@
            }),
    {
        // The catalog is taken apart while it is changed, and put together
        // when its lists and maps agree again.
        let mut taken = Scriptlets::default();
        core::mem::swap(self, &mut taken);
        proof {
            use_type_invariant(&taken);
        }
        let Scriptlets { mut scriptlets, aliases, mut names, alias_names } = taken;
        let ghost before = scriptlets@;
        let known = scriptlets.contains_key(name.as_str());
        note_name(&mut names, name.as_str(), known, Ghost(before.dom()));
        scriptlets.insert(name, scriptlet);
        proof {
            assert(scriptlets@.dom() =~= before.dom().insert(name@));
            assert(scriptlets@.map_values(|s: Scriptlet| s@) =~= before.map_values(
                |s: Scriptlet| s@,
            ).insert(name@, scriptlet@));
        }
        *self = Scriptlets { scriptlets, aliases, names, alias_names };
    }

    /// Makes `alias` stand for `name`, in place of what it stood for.
    pub fn add_alias(&mut self, alias: String, name: String)
        ensures
            final(self)@ == (ScriptletsView {
                aliases: old(self)@.aliases.insert(alias@, name@),
                ..old(self)@
            }),
    {
        let mut taken = Scriptlets::default();
        core::mem::swap(self, &mut taken);
        proof {
            use_type_invariant(&taken);
        }
        let Scriptlets { scriptlets, mut aliases, names, mut alias_names } = taken;
        let ghost before = aliases@;
        let known = aliases.contains_key(alias.as_str());
        note_name(&mut alias_names, alias.as_str(), known, Ghost(before.dom()));
        aliases.insert(alias, name);
        proof {
            assert(aliases@.dom() =~= before.dom().insert(alias@));
            assert(aliases@.map_values(|a: String| a@) =~= before.map_values(
                |a: String| a@,
            ).insert(alias@, name@));
        }
        *self = Scriptlets { scriptlets, aliases, names, alias_names };
    }
}

/// The end of a banner stands at `i`: a line end, then `*/`.
pub open spec fn is_banner_close_at(s: Seq<char>, i: int) -> bool {
    0 <= i && i + 3 <= s.len() && s[i] == '\n' && s[i + 1] == '*' && s[i + 2] == '/'
}

/// The first position at or after `from` where the end of a banner stands;
/// the length of `s` when there is none.
pub open spec fn banner_close(s: Seq<char>, from: int) -> int
    decreases s.len() - from,
{
    if from < 0 || from >= s.len() {
        s.len() as int
    } else if is_banner_close_at(s, from) {
        from
    } else {
        banner_close(s, from + 1)
    }
}

/// Where the resources begin: behind the banner and the white space that
/// follows it, or at 0 without a banner. A banner is a comment that opens
/// with `/*` at the very start, holds at least one character, and closes
/// with the first `*/` at the start of a line.
pub open spec fn banner_end(s: Seq<char>) -> int {
    if s.len() >= 2 && s[0] == '/' && s[1] == '*' && banner_close(s, 3) < s.len() {
        trim_start(s, banner_close(s, 3) + 3, s.len() as int)
    } else {
        0
    }
}

/// The lines of `s` from `line_start` on, where no line end stands between
/// `line_start` and `from`. A line end behind the last line adds no line.
pub open spec fn lines_from(s: Seq<char>, from: int, line_start: int) -> Seq<Seq<char>>
    decreases s.len() - from,
{
    if from < 0 || from >= s.len() {
        if line_start < s.len() {
            seq![s.subrange(line_start, s.len() as int)]
        } else {
            Seq::<Seq<char>>::empty()
        }
    } else if s[from] == '\n' {
        seq![s.subrange(line_start, from)] + lines_from(s, from + 1, from + 1)
    } else {
        lines_from(s, from + 1, line_start)
    }
}

/// The lines of `s`, without their line ends.
pub open spec fn lines_of(s: Seq<char>) -> Seq<Seq<char>> {
    lines_from(s, 0, 0)
}

/// Where the word that begins at `from` ends: at the first white space, or
/// at the end of `s`.
pub open spec fn word_end(s: Seq<char>, from: int) -> int
    decreases s.len() - from,
{
    if from < 0 || from >= s.len() {
        s.len() as int
    } else if is_whitespace(s[from]) {
        from
    } else {
        word_end(s, from + 1)
    }
}

/// A line that the catalog skips: it begins with `#` or with `// `.
pub open spec fn is_comment_line(line: Seq<char>) -> bool {
    (line.len() > 0 && line[0] == '#') || starts_with_at(line, 0, "// "@)
}

/// A line that names a resource or gives a detail of it: it begins with
/// `/// `.
pub open spec fn is_detail_line(line: Seq<char>) -> bool {
    starts_with_at(line, 0, "/// "@)
}

/// A line with nothing but white space.
pub open spec fn is_blank_line(line: Seq<char>) -> bool {
    trim_start(line, 0, line.len() as int) >= line.len()
}

/// The property and the value of a detail line: the first two words behind
/// `/// `. `None` where there are fewer than two.
pub open spec fn detail(line: Seq<char>) -> Option<(Seq<char>, Seq<char>)> {
    let n = line.len() as int;
    let prop_start = trim_start(line, 4, n);
    let prop_end = word_end(line, prop_start);
    let value_start = trim_start(line, prop_end, n);
    let value_end = word_end(line, value_start);
    if value_start < n {
        Some((line.subrange(prop_start, prop_end), line.subrange(value_start, value_end)))
    } else {
        None
    }
}

/// What the catalog has read so far: the resource that is open, if one is,
/// and the templates of the resources that were closed.
pub struct CatalogState {
    pub name: Option<Seq<char>>,
    pub alias: Option<Seq<char>>,
    pub script: Seq<char>,
    pub catalog: ScriptletsView,
}

impl CatalogState {
    /// Before the first line: no resource is open, the catalog is empty.
    pub open spec fn start() -> CatalogState {
        CatalogState {
            name: None,
            alias: None,
            script: Seq::empty(),
            catalog: ScriptletsView::empty(),
        }
    }

    /// Closes the open resource: its body is parsed as a template and goes
    /// into the catalog under its name without `.js`; its alias, without
    /// `.js`, then stands for that name.
    pub open spec fn close(self) -> CatalogState {
        let name = without_js(self.name->0);
        let template = ScriptletView {
            parts: parse_template(self.script),
            required_args: max_argument(parse_template(self.script)),
        };
        CatalogState {
            name: None,
            alias: None,
            script: Seq::empty(),
            catalog: ScriptletsView {
                scriptlets: self.catalog.scriptlets.insert(name, template),
                aliases: match self.alias {
                    Some(alias) => self.catalog.aliases.insert(without_js(alias), name),
                    None => self.catalog.aliases,
                },
            },
        }
    }

    /// The state after one more line. Comment lines are skipped. While no
    /// resource is open, a `/// name` line opens one and all other lines
    /// are skipped. In a resource, a `/// alias value` line sets its alias
    /// and other detail lines are skipped; a line that is not blank adds
    /// its text, without the white space at its ends, to the body; a blank
    /// line closes the resource.
    pub open spec fn step(self, line: Seq<char>) -> CatalogState {
        if is_comment_line(line) {
            self
        } else if self.name is None {
            if is_detail_line(line) {
                CatalogState { name: Some(trimmed(line, 4, line.len() as int)), ..self }
            } else {
                self
            }
        } else if is_detail_line(line) {
            match detail(line) {
                Some((prop, value)) => if prop == "alias"@ {
                    CatalogState { alias: Some(value), ..self }
                } else {
                    self
                },
                None => self,
            }
        } else if !is_blank_line(line) {
            CatalogState { script: self.script + trimmed(line, 0, line.len() as int), ..self }
        } else {
            self.close()
        }
    }
}

/// The state after the given lines, taken in order.
pub open spec fn state_after(lines: Seq<Seq<char>>) -> CatalogState
    decreases lines.len(),
{
    if lines.len() == 0 {
        CatalogState::start()
    } else {
        state_after(lines.drop_last()).step(lines.last())
    }
}

/// The catalog that a resources file holds. A resource that no blank line
/// closes is not in it.
pub open spec fn catalog_of(data: Seq<char>) -> ScriptletsView {
    state_after(lines_of(data.subrange(banner_end(data), data.len() as int))).catalog
}

/// Finds where the resources begin.
fn skip_banner(s: &[char]) -> (start: usize)
    ensures
        start == banner_end(s@),
        start <= s@.len(),
{
    let n = s.len();
    if !(n >= 2 && s[0] == '/' && s[1] == '*') || n < 3 {
        return 0;
    }
    let mut k: usize = 3;
    while k < n && !(n - k >= 3 && s[k] == '\n' && s[k + 1] == '*' && s[k + 2] == '/')
        invariant
            3 <= k <= n == s@.len(),
            banner_close(s@, 3) == banner_close(s@, k as int),
        decreases n - k,
    {
        k += 1;
    }
    if k >= n {
        return 0;
    }
    let (start, _) = trim_bounds(s, k + 3, n);
    start
}

/// Finds where the word that begins at `from` ends.
fn scan_word(s: &[char], from: usize) -> (end: usize)
    requires
        from <= s@.len(),
    ensures
        end == word_end(s@, from as int),
        from <= end <= s@.len(),
{
    let mut i: usize = from;
    while i < s.len() && !char_is_whitespace(s[i])
        invariant
            from <= i <= s@.len(),
            word_end(s@, from as int) == word_end(s@, i as int),
        decreases s@.len() - i,
    {
        i += 1;
    }
    i
}

/// Finds where the white space that begins at `from` ends.
fn skip_whitespace(s: &[char], from: usize) -> (end: usize)
    requires
        from <= s@.len(),
    ensures
        end == trim_start(s@, from as int, s@.len() as int),
        from <= end <= s@.len(),
{
    let (start, _) = trim_bounds(s, from, s.len());
    start
}

/// The catalog while a resources file is read.
struct CatalogBuilder {
    name: Option<String>,
    alias: Option<String>,
    script: String,
    catalog: Scriptlets,
}

impl View for CatalogBuilder {
    type V = CatalogState;

    closed spec fn view(&self) -> CatalogState {
        CatalogState {
            name: match self.name {
                Some(name) => Some(name@),
                None => None,
            },
            alias: match self.alias {
                Some(alias) => Some(alias@),
                None => None,
            },
            script: self.script@,
            catalog: self.catalog@,
        }
    }
}

impl CatalogBuilder {
    /// Takes one more line.
    fn take_line(&mut self, line: &[char])
        ensures
            final(self)@ == old(self)@.step(line@),
    {
        let n = line.len();
        proof {
            reveal_strlit("/// ");
        }
        if (n > 0 && line[0] == '#') || has_prefix_at(line, 0, "// ") {
            return ;
        }
        let is_detail = has_prefix_at(line, 0, "/// ");
        if self.name.is_none() {
            if is_detail {
                let (a, b) = trim_bounds(line, 4, n);
                self.name = Some(string_of(line, a, b));
            }
            return ;
        }
        if is_detail {
            let prop_start = skip_whitespace(line, 4);
            let prop_end = scan_word(line, prop_start);
            let value_start = skip_whitespace(line, prop_end);
            let value_end = scan_word(line, value_start);
            if value_start < n {
                let prop = string_of(line, prop_start, prop_end);
                let alias = String::from_str("alias");
                if prop == alias {
                    self.alias = Some(string_of(line, value_start, value_end));
                }
            }
            return ;
        }
        let (a, b) = trim_bounds(line, 0, n);
        if a < n {
            let text = string_of(line, a, b);
            self.script.append(text.as_str());
            return ;
        }
        self.close();
    }

    /// Closes the open resource.
    fn close(&mut self)
        requires
            old(self)@.name is Some,
        ensures
            final(self)@ == old(self)@.close(),
    {
        let mut name: Option<String> = None;
        core::mem::swap(&mut self.name, &mut name);
        let mut alias: Option<String> = None;
        core::mem::swap(&mut self.alias, &mut alias);
        let mut script = String::new();
        core::mem::swap(&mut self.script, &mut script);
        let template = Scriptlet::parse(script.as_str());
        let full_name = name.unwrap();
        let name = without_js_extension(full_name.as_str());
        if let Some(alias) = alias {
            self.catalog.add_alias(
                String::from_str(without_js_extension(alias.as_str())),
                String::from_str(name),
            );
        }
        self.catalog.add_scriptlet(String::from_str(name), template);
    }
}

impl Scriptlets {
    /// Reads a resources file. Behind an optional banner comment, each
    /// resource is a `/// name` line, detail lines, the lines of its body,
    /// and a blank line.
    pub fn parse_template_file(data: &str) -> (catalog: Scriptlets)
        ensures
            catalog@ == catalog_of(data@),
    {
        let chars = chars_of(data);
        let all = chars.as_slice();
        let start = skip_banner(all);
        let s = slice_subrange(all, start, all.len());
        let n = s.len();
        let mut builder = CatalogBuilder {
            name: None,
            alias: None,
            script: String::new(),
            catalog: Scriptlets::default(),
        };
        let ghost mut done: Seq<Seq<char>> = Seq::empty();
        let mut line_start: usize = 0;
        let mut i: usize = 0;
        while i < n
            invariant
                line_start <= i <= n == s@.len(),
                done + lines_from(s@, i as int, line_start as int) == lines_of(s@),
                builder@ == state_after(done),
            decreases n - i,
        {
            if s[i] == '\n' {
                let line = slice_subrange(s, line_start, i);
                builder.take_line(line);
                proof {
                    assert(done.push(line@).drop_last() == done);
                    done = done.push(line@);
                }
                line_start = i + 1;
            }
            i += 1;
        }
        if line_start < n {
            let line = slice_subrange(s, line_start, n);
            builder.take_line(line);
            proof {
                assert(done.push(line@).drop_last() == done);
                assert(done + seq![line@] =~= done.push(line@));
            }
        }
        builder.catalog
    }
}

/// No backslash and no quote is left in what `without_escapes` returns.
pub proof fn lemma_without_escapes(s: Seq<char>)
    ensures
        forall|j: int| 0 <= j < without_escapes(s).len() ==> !is_escape_char(without_escapes(s)[j]),
    decreases s.len(),
{
    if s.len() > 0 {
        lemma_without_escapes(s.drop_last());
        assert(without_escapes(s).len() >= without_escapes(s.drop_last()).len());
    }
}

/// No argument of an invocation holds a backslash or a quote.
pub proof fn lemma_arguments_hold_no_escapes(s: Seq<char>, from: int, field_start: int)
    ensures
        forall|i: int, j: int|
            0 <= i < split_arguments(s, from, field_start).len() && 0 <= j < split_arguments(
                s,
                from,
                field_start,
            )[i].len() ==> !is_escape_char(#[trigger] split_arguments(s, from, field_start)[i][j]),
    decreases s.len() - from,
{
    let n = s.len() as int;
    if from < 0 || from >= n {
        lemma_without_escapes(trimmed(s, field_start, n));
    } else if is_delimiter(s, from) {
        lemma_without_escapes(trimmed(s, field_start, from));
        lemma_arguments_hold_no_escapes(s, from + 1, from + 1);
        assert(split_arguments(s, from, field_start).skip(1) =~= split_arguments(
            s,
            from + 1,
            from + 1,
        ));
    } else {
        lemma_arguments_hold_no_escapes(s, from + 1, field_start);
        assert(split_arguments(s, from, field_start) == split_arguments(s, from + 1, field_start));
    }
}

/// The script of two lists of parts, one after the other, is the script of
/// the first followed by the script of the second.
pub proof fn lemma_render_concat(a: Seq<PartView>, b: Seq<PartView>, args: Seq<Seq<char>>)
    ensures
        render(a + b, args) == render(a, args) + render(b, args),
    decreases b.len(),
{
    if b.len() > 0 {
        lemma_render_concat(a, b.drop_last(), args);
        assert((a + b).drop_last() =~= a + b.drop_last());
    }
}

/// The digit that numbers the argument `index`.
pub open spec fn argument_digit(index: usize) -> char {
    if index == 1 {
        '1'
    } else if index == 2 {
        '2'
    } else if index == 3 {
        '3'
    } else if index == 4 {
        '4'
    } else if index == 5 {
        '5'
    } else if index == 6 {
        '6'
    } else if index == 7 {
        '7'
    } else if index == 8 {
        '8'
    } else {
        '9'
    }
}

/// The nine placeholders as texts, `{{1}}` first.
pub open spec fn placeholders() -> Seq<Seq<char>> {
    Seq::new(9, |k: int| seq!['{', '{', argument_digit((k + 1) as usize), '}', '}'])
}

/// The arguments of a parsed template are numbered from 1 to 9.
pub proof fn lemma_template_arguments(s: Seq<char>, from: int, literal_start: int)
    ensures
        arguments_within(template_parts(s, from, literal_start), 9),
    decreases s.len() - from,
{
    if from < 0 || from >= s.len() {
        assert(literal_part(s, literal_start, s.len() as int).len() <= 1);
    } else if is_placeholder_at(s, from) {
        lemma_template_arguments(s, from + 5, from + 5);
        assert(literal_part(s, literal_start, from).len() <= 1);
    } else {
        lemma_template_arguments(s, from + 1, literal_start);
    }
}

/// A text in which no placeholder stands is one literal, or no part at all
/// if it is empty.
pub proof fn lemma_plain_text_parts(s: Seq<char>, from: int, literal_start: int)
    requires
        forall|i: int| from <= i < s.len() ==> !is_placeholder_at(s, i),
    ensures
        template_parts(s, from, literal_start) == literal_part(s, literal_start, s.len() as int),
    decreases s.len() - from,
{
    if 0 <= from < s.len() {
        lemma_plain_text_parts(s, from + 1, literal_start);
    }
}

/// Parsing loses nothing: with each argument filled in by its own
/// placeholder, the parts of a template make the template again.
pub proof fn lemma_template_round_trip(s: Seq<char>)
    ensures
        render(parse_template(s), placeholders()) == s,
{
    lemma_parts_round_trip(s, 0, 0);
}

/// The parts from `literal_start` on make the text from `literal_start` on.
proof fn lemma_parts_round_trip(s: Seq<char>, from: int, literal_start: int)
    requires
        0 <= literal_start <= from <= s.len(),
    ensures
        render(template_parts(s, from, literal_start), placeholders()) == s.subrange(
            literal_start,
            s.len() as int,
        ),
    decreases s.len() - from,
{
    let n = s.len() as int;
    let p = placeholders();
    if from >= n {
        lemma_render_literal(s, literal_start, n, p);
    } else if is_placeholder_at(s, from) {
        let index = argument_index(s[from + 2]);
        let head = literal_part(s, literal_start, from);
        let arg = seq![PartView::Argument(index)];
        let tail = template_parts(s, from + 5, from + 5);
        lemma_parts_round_trip(s, from + 5, from + 5);
        lemma_render_literal(s, literal_start, from, p);
        lemma_render_concat(head + arg, tail, p);
        lemma_render_concat(head, arg, p);
        assert(arg.drop_last() =~= Seq::<PartView>::empty());
        assert(render(Seq::<PartView>::empty(), p) =~= Seq::<char>::empty());
    } else {
        lemma_parts_round_trip(s, from + 1, literal_start);
    }
}

/// The script of a literal part is its text.
proof fn lemma_render_literal(s: Seq<char>, from: int, to: int, args: Seq<Seq<char>>)
    requires
        0 <= from <= to <= s.len(),
    ensures
        render(literal_part(s, from, to), args) == s.subrange(from, to),
{
    let part = literal_part(s, from, to);
    if from < to {
        assert(part.drop_last() =~= Seq::<PartView>::empty());
        assert(render(Seq::<PartView>::empty(), args) =~= Seq::<char>::empty());
    }
}

/// A script in which no placeholder stands round-trips: parsed as a
/// template it is its own text as one literal and requires no argument, so
/// that filling it in gives the same script again. This holds of the script
/// that a template makes with as many arguments as it requires, as long as
/// no placeholder has come to stand in that script.
pub proof fn lemma_script_round_trip(template: ScriptletView, args: Seq<Seq<char>>)
    requires
        args.len() == template.required_args,
        forall|i: int| !is_placeholder_at(render(template.parts, args), i),
    ensures
        template.patch(args) == Ok::<Seq<char>, ScriptletError>(render(template.parts, args)),
        parse_template(render(template.parts, args)) == literal_part(
            render(template.parts, args),
            0,
            render(template.parts, args).len() as int,
        ),
        max_argument(parse_template(render(template.parts, args))) == 0,
        (ScriptletView {
            parts: parse_template(render(template.parts, args)),
            required_args: 0,
        }).patch(Seq::<Seq<char>>::empty()) == Ok::<Seq<char>, ScriptletError>(
            render(template.parts, args),
        ),
{
    let script = render(template.parts, args);
    lemma_plain_text_parts(script, 0, 0);
    let parts = parse_template(script);
    lemma_render_literal(script, 0, script.len() as int, Seq::<Seq<char>>::empty());
    assert(script.subrange(0, script.len() as int) == script);
    if script.len() > 0 {
        assert(max_argument(parts.drop_last()) == 0);
    }
}

} // verus!
