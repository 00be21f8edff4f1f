use vstd::prelude::*;

use core::ops::Range;

use crate::text::{find, find_from, lemma_find_from_bounds, number, parse_number, slice, trim, trimmed};
use crate::variables::{keys_distinct, map_of, pairs_view, resolve, Variables};

verus! {

pub open spec fn open_marker() -> Seq<char> {
    seq!['$', '{', '{']
}

pub open spec fn close_marker() -> Seq<char> {
    seq!['}', '}']
}

pub open spec fn range_separator() -> Seq<char> {
    seq!['.', '.']
}

/// The resolved value of `key`, if it has one.
pub open spec fn lookup(vars: Map<Seq<char>, Option<Seq<char>>>, key: Seq<char>) -> Option<Seq<char>> {
    if vars.contains_key(key) {
        vars[key]
    } else {
        None
    }
}

/// The bounds that `range` (`start..end`, either side may be empty) selects in a value of `len`
/// characters, clamped to the value.
pub open spec fn range_of(len: int, range: Seq<char>) -> Option<(int, int)> {
    match find_from(range, range_separator(), 0) {
        None => None,
        Some(d) => {
            let a = range.subrange(0, d);
            let b = range.subrange(d + 2, range.len() as int);
            let start = if a.len() == 0 {
                Some(0int)
            } else {
                match parse_number(a) {
                    Some(v) => Some(
                        if len > 0 && v >= len {
                            len - 1
                        } else {
                            v
                        },
                    ),
                    None => None,
                }
            };
            let end = if b.len() == 0 {
                Some(len)
            } else {
                match parse_number(b) {
                    Some(v) => Some(
                        if v > len {
                            len
                        } else {
                            v
                        },
                    ),
                    None => None,
                }
            };
            match (start, end) {
                (Some(x), Some(y)) => Some((x, y)),
                _ => None,
            }
        },
    }
}

/// What the placeholder expression `expr` (`name` or `name[range]`, blanks around it allowed)
/// stands for.
pub open spec fn evaluate(vars: Map<Seq<char>, Option<Seq<char>>>, expr: Seq<char>) -> Option<Seq<char>> {
    let e = trim(expr);
    match find_from(e, seq!['['], 0) {
        None => lookup(vars, e),
        Some(b) => if b + 1 < e.len() && e.last() == ']' {
            match lookup(vars, e.subrange(0, b)) {
                Some(v) => match range_of(v.len() as int, e.subrange(b + 1, e.len() - 1)) {
                    Some((x, y)) => if x <= y {
                        Some(v.subrange(x, y))
                    } else {
                        None
                    },
                    None => None,
                },
                None => None,
            }
        } else {
            None
        },
    }
}

/// The text of `line` from `pos` on with each placeholder replaced, and the number of
/// placeholders replaced.
pub open spec fn render_from(vars: Map<Seq<char>, Option<Seq<char>>>, line: Seq<char>, pos: int) -> (Seq<char>, nat)
    decreases line.len() - pos,
{
    if pos < 0 || pos > line.len() {
        (Seq::empty(), 0)
    } else {
        match find_from(line, open_marker(), pos) {
            None => (line.subrange(pos, line.len() as int), 0),
            Some(st) => match find_from(line, close_marker(), st + 3) {
                None => (line.subrange(pos, line.len() as int), 0),
                Some(sp) => if sp + 2 <= pos || sp + 2 > line.len() {
                    (Seq::empty(), 0)
                } else {
                    let (tail, n) = render_from(vars, line, sp + 2);
                    match evaluate(vars, line.subrange(st + 3, sp)) {
                        Some(v) => (line.subrange(pos, st) + v + tail, n + 1),
                        None => (line.subrange(pos, sp + 2) + tail, n),
                    }
                },
            },
        }
    }
}

/// The output line for `line`: each placeholder replaced, then a newline.
pub open spec fn render(vars: Map<Seq<char>, Option<Seq<char>>>, line: Seq<char>) -> Seq<char> {
    render_from(vars, line, 0).0.push('\n')
}

/// The number of placeholders replaced in `line`.
pub open spec fn replacements(vars: Map<Seq<char>, Option<Seq<char>>>, line: Seq<char>) -> nat {
    render_from(vars, line, 0).1
}

proof fn lemma_render_count(vars: Map<Seq<char>, Option<Seq<char>>>, line: Seq<char>, pos: int)
    ensures
        render_from(vars, line, pos).1 + pos <= line.len() || render_from(vars, line, pos).1 == 0,
    decreases line.len() - pos,
{
    if 0 <= pos <= line.len() {
        lemma_find_from_bounds(line, open_marker(), pos);
        if let Some(st) = find_from(line, open_marker(), pos) {
            lemma_find_from_bounds(line, close_marker(), st + 3);
            if let Some(sp) = find_from(line, close_marker(), st + 3) {
                if !(sp + 2 <= pos || sp + 2 > line.len()) {
                    lemma_render_count(vars, line, sp + 2);
                }
            }
        }
    }
}

/// Fills templates with resolved variables.
#[derive(Debug)]
pub struct Generator {
    variables: Variables,
}

impl Generator {
    pub closed spec fn wf(&self) -> bool {
        self.variables.wf()
    }

    /// The resolved variables.
    pub closed spec fn vars(&self) -> Map<Seq<char>, Option<Seq<char>>> {
        self.variables@
    }

    /// A generator for the definitions `raw`, resolved against the environment `env`.
    pub fn new(raw: &Vec<(String, String)>, env: &Vec<(String, String)>) -> (r: Generator)
        requires
            keys_distinct(pairs_view(raw@)),
            keys_distinct(pairs_view(env@)),
        ensures
            r.wf(),
            r.vars() == resolve(map_of(pairs_view(raw@)), map_of(pairs_view(env@))),
    {
        Generator { variables: Variables::new(raw, env) }
    }

    /// The resolved variables.
    pub fn variables(&self) -> (r: &Variables)
        ensures
            r@ == self.vars(),
            r.wf() == self.wf(),
    {
        &self.variables
    }

    /// Reads `range` as bounds into `value`.
    pub fn parse_range(&self, value: &str, range: &str) -> (r: Option<Range<usize>>)
        ensures
            match r {
                Some(g) => range_of(value@.len() as int, range@) == Some((g.start as int, g.end as int)),
                None => range_of(value@.len() as int, range@).is_none(),
            },
    {
        let len = value.unicode_len();
        let n = range.unicode_len();
        let dots = vec!['.', '.'];
        proof {
            assert(dots@ =~= range_separator());
        }
        let dot = match find(range, n, &dots, 0) {
            Some(d) => d,
            None => return None,
        };
        let start = if dot == 0 {
            0
        } else {
            match number(range.substring_char(0, dot)) {
                Some(v) => if len > 0 && v >= len {
                    len - 1
                } else {
                    v
                },
                None => return None,
            }
        };
        let end = if dot + 2 == n {
            len
        } else {
            match number(range.substring_char(dot + 2, n)) {
                Some(v) => if v > len {
                    len
                } else {
                    v
                },
                None => return None,
            }
        };
        Some(Range { start, end })
    }

    /// The text that the placeholder expression `expression` stands for, if any.
    pub fn parse_expression(&self, expression: &str) -> (r: Option<String>)
        requires
            self.wf(),
        ensures
            match r {
                Some(v) => evaluate(self.vars(), expression@) == Some(v@),
                None => evaluate(self.vars(), expression@).is_none(),
            },
    {
        let e = trimmed(expression);
        let e = e.as_str();
        let n = e.unicode_len();
        let bracket = vec!['['];
        proof {
            assert(bracket@ =~= seq!['[']);
        }
        match find(e, n, &bracket, 0) {
            None => match self.variables.value(e) {
                Some(v) => Some(v.clone()),
                None => None,
            },
            Some(b) => {
                if !(b + 1 < n && e.get_char(n - 1) == ']') {
                    return None;
                }
                let key = e.substring_char(0, b);
                let value = match self.variables.value(key) {
                    Some(v) => v.as_str(),
                    None => return None,
                };
                match self.parse_range(value, e.substring_char(b + 1, n - 1)) {
                    Some(g) => if g.start <= g.end {
                        Some(slice(value, g.start, g.end))
                    } else {
                        None
                    },
                    None => None,
                }
            },
        }
    }

    /// Appends to `output` the line `input` with its placeholders replaced, then a newline, and
    /// returns how many placeholders were replaced.
    pub fn process_line(&self, input: &String, output: &mut String) -> (r: u32)
        requires
            self.wf(),
            input@.len() <= u32::MAX,
        ensures
            final(output)@ == old(output)@ + render(self.vars(), input@),
            r == replacements(self.vars(), input@),
    {
        let line = input.as_str();
        let ghost vars = self.vars();
        let ghost l = line@;
        let n = line.unicode_len();
        let opening = vec!['$', '{', '{'];
        let closing = vec!['}', '}'];
        proof {
            assert(opening@ =~= open_marker());
            assert(closing@ =~= close_marker());
            lemma_render_count(vars, l, 0);
        }
        let mut pos: usize = 0;
        let mut count: u32 = 0;
        loop
            invariant
                self.wf(),
                vars == self.vars(),
                l == line@,
                n == l.len(),
                n <= u32::MAX,
                opening@ == open_marker(),
                closing@ == close_marker(),
                pos <= n,
                old(output)@ + render_from(vars, l, 0).0 == output@ + render_from(vars, l, pos as int).0,
                count + render_from(vars, l, pos as int).1 == render_from(vars, l, 0).1,
                render_from(vars, l, 0).1 <= n,
            ensures
                pos <= n,
                old(output)@ + render_from(vars, l, 0).0 == output@ + l.subrange(pos as int, n as int),
                count == render_from(vars, l, 0).1,
            decreases n - pos,
        {
            let st = match find(line, n, &opening, pos) {
                Some(st) => st,
                None => {
                    proof {
                        assert(render_from(vars, l, pos as int) == (l.subrange(pos as int, n as int), 0nat));
                    }
                    break ;
                },
            };
            let sp = match find(line, n, &closing, st + 3) {
                Some(sp) => sp,
                None => {
                    proof {
                        assert(render_from(vars, l, pos as int) == (l.subrange(pos as int, n as int), 0nat));
                    }
                    break ;
                },
            };
            let ghost tail = render_from(vars, l, sp + 2);
            proof {
                lemma_render_count(vars, l, sp + 2);
            }
            let ghost prev = output@;
            match self.parse_expression(line.substring_char(st + 3, sp)) {
                Some(v) => {
                    output.append(line.substring_char(pos, st));
                    output.append(v.as_str());
                    count = count + 1;
                    proof {
                        let a = l.subrange(pos as int, st as int);
                        assert(render_from(vars, l, pos as int) == (a + v@ + tail.0, tail.1 + 1));
                        assert(prev + (a + v@ + tail.0) =~= output@ + tail.0);
                    }
                },
                None => {
                    output.append(line.substring_char(pos, sp + 2));
                    proof {
                        let a = l.subrange(pos as int, sp + 2);
                        assert(render_from(vars, l, pos as int) == (a + tail.0, tail.1));
                        assert(prev + (a + tail.0) =~= output@ + tail.0);
                    }
                },
            }
            pos = sp + 2;
        }
        output.append(line.substring_char(pos, n));
        output.append("\n");
        proof {
            reveal_strlit("\n");
            assert(old(output)@ + render(vars, l) =~= output@);
        }
        count
    }
}

} // verus!
