//! A statement-level syntax tree for a richer diagram syntax, where
//! participants and messages carry bracketed attribute lists such as
//! `a[label="Ann"]; a->b [dashed];`. Every node keeps the span of the
//! source text it came from.

use vstd::prelude::*;
use vstd::string::{StrSliceExecFns, StringExecFns};

verus! {

/// A half-open range of character positions in the source text.
#[derive(Copy, Clone, Debug, PartialEq, Eq, Structural)]
pub struct Span {
    pub start: usize,
    pub end: usize,
}

/// A value together with the span it was read from.
#[derive(Debug)]
pub struct Spanned<T> {
    pub value: T,
    pub span: Span,
}

/// A string of the source text with its span.
#[derive(Debug)]
pub struct Str<'a> {
    pub span: Span,
    pub str: &'a str,
}

impl<'a> Str<'a> {
    /// `value` with an empty span, for lookups where only the text matters.
    pub fn spanless(value: &'a str) -> (r: Str<'a>)
        ensures
            r.str@ == value@,
            r.span == (Span { start: 0, end: 0 }),
    {
        Str { span: Span { start: 0, end: 0 }, str: value }
    }
}

/// An arrowhead of a message line.
#[derive(Debug, PartialEq, Eq, Structural)]
pub enum ArrowHead {
    Solid,
}

/// The shaft style of a message line.
#[derive(Debug, PartialEq, Eq, Structural)]
pub enum ArrowLine {
    Solid,
    Dashed,
}

/// A message arrow: an optional head at each end and a shaft style.
#[derive(Debug)]
pub struct Arrow {
    pub span: Span,
    pub head_left: Option<ArrowHead>,
    pub head_right: Option<ArrowHead>,
    pub line: ArrowLine,
}

/// An attribute value literal.
#[derive(Debug)]
pub struct Atom<'a> {
    pub span: Span,
    pub value: AtomValue<'a>,
}

#[derive(Debug)]
pub enum AtomValue<'a> {
    Boolean(bool),
    String(&'a str),
}

/// The right-hand side of an attribute.
#[derive(Debug)]
pub enum AttrValue<'a> {
    Atom(Atom<'a>),
    /// Attributes can be implicitly set to true by only providing the attribute key
    ImplicitTrue,
}

/// A bracketed attribute list: keys with their values, in source order.
#[derive(Debug)]
pub struct Attrs<'a> {
    pub span: Span,
    pub data: Vec<(Str<'a>, AttrValue<'a>)>,
}

/// The value bound to `key` by its first binding, if any.
pub open spec fn attr_lookup<'a>(data: Seq<(Str<'a>, AttrValue<'a>)>, key: Seq<char>) -> Option<
    AttrValue<'a>,
>
    decreases data.len(),
{
    if data.len() == 0 {
        Option::None
    } else if data[0].0.str@ == key {
        Option::Some(data[0].1)
    } else {
        attr_lookup(data.drop_first(), key)
    }
}

/// What `get_str` must return for a bound key: the string payload of a
/// string atom, and nothing for a boolean or implicit-true value.
pub open spec fn str_attr<'a>(v: AttrValue<'a>, r: Option<Spanned<&'a str>>) -> bool {
    match v {
        AttrValue::Atom(atom) => match atom.value {
            AtomValue::String(s) => r matches Option::Some(sp) && sp.span == atom.span
                && sp.value@ == s@,
            AtomValue::Boolean(_) => r is None,
        },
        AttrValue::ImplicitTrue => r is None,
    }
}

/// Whether two strings hold the same characters.
fn str_eq(a: &str, b: &str) -> (r: bool)
    ensures
        r == (a@ == b@),
{
    let sa = String::from_str(a);
    let sb = String::from_str(b);
    sa == sb
}

impl<'a> Attrs<'a> {
    /// The string value bound to `key`, which must be bound to something:
    /// its text and span for a string atom, nothing for any other value.
    pub fn get_str(&self, key: &str) -> (r: Option<Spanned<&'a str>>)
        requires
            attr_lookup(self.data@, key@) is Some,
        ensures
            str_attr(attr_lookup(self.data@, key@)->0, r),
    {
        let probe = Str::spanless(key);
        let n = self.data.len();
        let ghost dv = self.data@;
        proof {
            assert(dv.skip(0) =~= dv);
        }
        for i in 0..n
            invariant
                n == dv.len(),
                dv == self.data@,
                probe.str@ == key@,
                attr_lookup(dv, key@) == attr_lookup(dv.skip(i as int), key@),
                attr_lookup(dv, key@) is Some,
        {
            proof {
                assert(dv.skip(i as int)[0] == dv[i as int]);
                assert(dv.skip(i as int).drop_first() =~= dv.skip(i + 1));
            }
            let entry = &self.data[i];
            let hit = str_eq(entry.0.str, probe.str);
            proof {
                assert(entry.0 == dv[i as int].0);
                assert(probe.str@ == key@);
                assert(hit == (dv[i as int].0.str@ == key@));
                if hit {
                    assert(attr_lookup(dv.skip(i as int), key@) == Option::Some(
                        dv.skip(i as int)[0].1,
                    ));
                } else {
                    assert(attr_lookup(dv.skip(i as int), key@) == attr_lookup(
                        dv.skip(i as int).drop_first(),
                        key@,
                    ));
                }
            }
            if hit {
                proof {
                    assert(attr_lookup(dv, key@) == Option::Some(dv[i as int].1));
                }
                return match &self.data[i].1 {
                    AttrValue::Atom(atom) => match atom.value {
                        AtomValue::String(s) => Some(Spanned { span: atom.span, value: s }),
                        AtomValue::Boolean(_) => None,
                    },
                    AttrValue::ImplicitTrue => None,
                };
            }
        }
        proof {
            assert(dv.skip(n as int) =~= Seq::<(Str<'a>, AttrValue<'a>)>::empty());
            assert(false);
        }
        None
    }
}

/// A statement of the richer syntax.
#[derive(Debug)]
pub enum Stmt<'a> {
    /// Diagram participant with its display name
    Participant { span: Span, ident: Str<'a>, attrs: Option<Attrs<'a>> },
    /// Message sent from one participant to another
    Message {
        span: Span,
        ident1: Str<'a>,
        ident2: Str<'a>,
        arrow: Arrow,
        attrs: Option<Attrs<'a>>,
    },
    /// Separates messages
    Separator { span: Span, text: &'a str },
}

/// A parsed tree: the statements in source order.
#[derive(Debug)]
pub struct Tree<'a> {
    pub stmts: Vec<Stmt<'a>>,
}

} // verus!
