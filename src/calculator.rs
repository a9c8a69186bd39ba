use vstd::prelude::*;
use vstd::string::is_ascii;

verus! {

/// The operator that a letter of the input alphabet stands for.
pub open spec fn operator_of(c: Seq<char>) -> Option<Seq<char>> {
    if c == "a"@ {
        Some("+"@)
    } else if c == "b"@ {
        Some("-"@)
    } else if c == "c"@ {
        Some("*"@)
    } else if c == "d"@ {
        Some("/"@)
    } else if c == "e"@ {
        Some("("@)
    } else if c == "f"@ {
        Some(")"@)
    } else {
        None
    }
}

/// The result of applying `operator` to `x` and `y`, for the four
/// arithmetic operators.
pub open spec fn arithmetic_of(operator: Seq<char>, x: u16, y: u16) -> Option<int> {
    if operator == "+"@ {
        Some(x + y)
    } else if operator == "-"@ {
        Some(x - y)
    } else if operator == "*"@ {
        Some(x * y)
    } else if operator == "/"@ {
        Some(x as int / y as int)
    } else {
        None
    }
}

/// A lexical unit of an arithmetic expression.
#[derive(Clone, Copy, Debug, PartialEq, Eq, Structural)]
pub enum Token {
    Number(u16),
    Operator(char),
    Open,
    Close,
}

/// The token that a letter stands for.
pub open spec fn letter_token(c: char) -> Option<Token> {
    if c == 'a' {
        Some(Token::Operator('+'))
    } else if c == 'b' {
        Some(Token::Operator('-'))
    } else if c == 'c' {
        Some(Token::Operator('*'))
    } else if c == 'd' {
        Some(Token::Operator('/'))
    } else if c == 'e' {
        Some(Token::Open)
    } else if c == 'f' {
        Some(Token::Close)
    } else {
        None
    }
}

pub open spec fn is_digit(c: char) -> bool {
    '0' <= c <= '9'
}

/// The tokens read from `chars`, and the number being read at its end, if
/// any; `None` for a character other than a digit or `a` to `f`, or a number
/// above `u16::MAX`.
pub open spec fn lex(chars: Seq<char>) -> Option<(Seq<Token>, Option<u16>)>
    decreases chars.len(),
{
    if chars.len() == 0 {
        Some((Seq::empty(), None))
    } else {
        match lex(chars.drop_last()) {
            None => None,
            Some((t, cur)) => {
                let c = chars.last();
                if is_digit(c) {
                    let n = match cur {
                        Some(v) => v as int,
                        None => 0,
                    } * 10 + (c as int - '0' as int);
                    if n <= u16::MAX {
                        Some((t, Some(n as u16)))
                    } else {
                        None
                    }
                } else {
                    match letter_token(c) {
                        None => None,
                        Some(k) => {
                            let t2 = match cur {
                                Some(v) => t.push(Token::Number(v)),
                                None => t,
                            };
                            Some((t2.push(k), None))
                        },
                    }
                }
            },
        }
    }
}

/// The tokens of `chars`.
pub open spec fn tokens_of(chars: Seq<char>) -> Option<Seq<Token>> {
    match lex(chars) {
        None => None,
        Some((t, Some(v))) => Some(t.push(Token::Number(v))),
        Some((t, None)) => Some(t),
    }
}

/// `x op y`, where it is defined in `u16`.
pub open spec fn apply_op(op: char, x: u16, y: u16) -> Option<u16> {
    if op == '+' && x + y <= u16::MAX {
        Some((x + y) as u16)
    } else if op == '-' && x >= y {
        Some((x - y) as u16)
    } else if op == '*' && x * y <= u16::MAX {
        Some((x * y) as u16)
    } else if op == '/' && y != 0 {
        Some((x / y) as u16)
    } else {
        None
    }
}

/// The value of a bracket-free expression, evaluated from left to right
/// without precedence.
pub open spec fn flat_value(t: Seq<Token>) -> Option<u16>
    decreases t.len(),
{
    if t.len() == 1 {
        match t[0] {
            Token::Number(n) => Some(n),
            _ => None,
        }
    } else if t.len() >= 3 {
        match (t[0], t[1], t[2]) {
            (Token::Number(x), Token::Operator(op), Token::Number(y)) => match apply_op(op, x, y) {
                Some(r) => flat_value(seq![Token::Number(r)] + t.skip(3)),
                None => None,
            },
            _ => None,
        }
    } else {
        None
    }
}

pub open spec fn is_last_open(t: Seq<Token>, o: int) -> bool {
    &&& 0 <= o < t.len()
    &&& t[o] == Token::Open
    &&& forall|j: int| o < j < t.len() ==> t[j] != Token::Open
}

pub open spec fn is_first_close(t: Seq<Token>, c: int) -> bool {
    &&& 0 <= c < t.len()
    &&& t[c] == Token::Close
    &&& forall|j: int| 0 <= j < c ==> t[j] != Token::Close
}

pub open spec fn has_bracket(t: Seq<Token>) -> bool {
    exists|j: int| 0 <= j < t.len() && (t[j] == Token::Open || t[j] == Token::Close)
}

/// Replaces the innermost bracketed group (from the last `(` to the first
/// `)`) by its value.
pub open spec fn inner_step(t: Seq<Token>) -> Option<Seq<Token>> {
    if (exists|o: int| is_last_open(t, o)) && (exists|c: int| is_first_close(t, c)) {
        let o = choose|o: int| is_last_open(t, o);
        let c = choose|c: int| is_first_close(t, c);
        if o < c {
            match flat_value(t.subrange(o + 1, c)) {
                Some(v) => Some(t.take(o) + seq![Token::Number(v)] + t.skip(c + 1)),
                None => None,
            }
        } else {
            None
        }
    } else {
        None
    }
}

/// The expression once every bracketed group has been replaced by its value.
pub open spec fn reduce(t: Seq<Token>) -> Option<Seq<Token>>
    decreases t.len(),
{
    if !has_bracket(t) {
        Some(t)
    } else {
        match inner_step(t) {
            Some(u) => if u.len() < t.len() {
                reduce(u)
            } else {
                None
            },
            None => None,
        }
    }
}

/// The value of a letter-coded expression, where it is defined.
pub open spec fn evaluate(chars: Seq<char>) -> Option<u16> {
    match tokens_of(chars) {
        None => None,
        Some(t) => match reduce(t) {
            None => None,
            Some(u) => flat_value(u),
        },
    }
}

proof fn lemma_lex_prefix(chars: Seq<char>, k: int)
    requires
        lex(chars) is Some,
        0 <= k <= chars.len(),
    ensures
        lex(chars.take(k)) is Some,
    decreases chars.len(),
{
    if k < chars.len() {
        assert(chars.drop_last().take(k) =~= chars.take(k));
        lemma_lex_prefix(chars.drop_last(), k);
    } else {
        assert(chars.take(k) =~= chars);
    }
}

proof fn lemma_lex_ascii(chars: Seq<char>)
    requires
        lex(chars) is Some,
    ensures
        forall|i: int| 0 <= i < chars.len() ==> is_digit(#[trigger] chars[i]) || letter_token(chars[i]) is Some,
    decreases chars.len(),
{
    if chars.len() > 0 {
        lemma_lex_ascii(chars.drop_last());
        assert forall|i: int| 0 <= i < chars.len() implies is_digit(#[trigger] chars[i]) || letter_token(chars[i]) is Some by {
            if i < chars.len() - 1 {
                assert(chars[i] == chars.drop_last()[i]);
            }
        }
    }
}

/// Splits a letter-coded expression into numbers, operators and brackets.
fn translate_input(input: &str) -> (r: Vec<Token>)
    requires
        tokens_of(input@) is Some,
    ensures
        r@ == tokens_of(input@).unwrap(),
{
    proof {
        lemma_lex_ascii(input@);
        assert(is_ascii(input));
        vstd::string::is_ascii_spec_bytes(input);
    }
    let bytes = input.as_bytes();
    let mut tokens: Vec<Token> = Vec::new();
    let mut cur: Option<u16> = None;
    let mut i: usize = 0;
    assert(input@.take(0) =~= Seq::<char>::empty());
    while i < bytes.len()
        invariant
            i <= bytes@.len(),
            bytes@.len() == input@.len(),
            forall|j: int| 0 <= j < input@.len() ==> #[trigger] bytes@[j] == input@[j] as u8,
            forall|j: int| 0 <= j < input@.len() ==> is_digit(#[trigger] input@[j]) || letter_token(input@[j]) is Some,
            lex(input@) is Some,
            lex(input@.take(i as int)) == Some((tokens@, cur)),
        decreases bytes@.len() - i,
    {
        let b = bytes[i];
        let ghost c = input@[i as int];
        proof {
            lemma_lex_prefix(input@, i + 1);
            assert(input@.take(i + 1).drop_last() =~= input@.take(i as int));
            assert(input@.take(i + 1).last() == c);
        }
        if b >= 48 && b <= 57 {
            assert(is_digit(c));
            let base: u32 = match cur {
                Some(v) => v as u32,
                None => 0,
            };
            let n: u32 = base * 10 + (b - 48) as u32;
            cur = Some(n as u16);
        } else {
            assert(!is_digit(c));
            match cur {
                Some(v) => {
                    tokens.push(Token::Number(v));
                },
                None => {},
            }
            let k = if b == 97 {
                Token::Operator('+')
            } else if b == 98 {
                Token::Operator('-')
            } else if b == 99 {
                Token::Operator('*')
            } else if b == 100 {
                Token::Operator('/')
            } else if b == 101 {
                Token::Open
            } else {
                Token::Close
            };
            tokens.push(k);
            cur = None;
        }
        i = i + 1;
    }
    assert(input@.take(input@.len() as int) =~= input@);
    match cur {
        Some(v) => {
            tokens.push(Token::Number(v));
        },
        None => {},
    }
    tokens
}

/// `x op y`, where it is defined in `u16`.
fn apply_token_op(op: char, x: u16, y: u16) -> (r: Option<u16>)
    ensures
        r == apply_op(op, x, y),
{
    proof {
        assert(x as int * y as int <= 65535 * 65535) by (nonlinear_arith)
            requires
                x <= 65535,
                y <= 65535,
        ;
    }
    if op == '+' && x <= u16::MAX - y {
        Some(x + y)
    } else if op == '-' && x >= y {
        Some(x - y)
    } else if op == '*' && (x as u32) * (y as u32) <= u16::MAX as u32 {
        Some(x * y)
    } else if op == '/' && y != 0 {
        Some(x / y)
    } else {
        None
    }
}

/// Evaluates a bracket-free expression from left to right.
fn solve_outer(data: Vec<Token>) -> (r: Vec<Token>)
    requires
        flat_value(data@) is Some,
    ensures
        r@ == seq![Token::Number(flat_value(data@).unwrap())],
{
    let ghost v = flat_value(data@).unwrap();
    let mut data = data;
    while data.len() > 1
        invariant
            flat_value(data@) == Some(v),
        decreases data@.len(),
    {
        let t0 = data[0];
        let t1 = data[1];
        let t2 = data[2];
        match (t0, t1, t2) {
            (Token::Number(x), Token::Operator(op), Token::Number(y)) => {
                let value = apply_token_op(op, x, y).unwrap();
                let ghost before = data@;
                data.remove(0);
                data.remove(0);
                data.set(0, Token::Number(value));
                assert(data@ =~= seq![Token::Number(value)] + before.skip(3));
            },
            _ => {
                assert(false);
            },
        }
    }
    assert(data@ =~= seq![Token::Number(v)]);
    data
}

/// The position of the last `(`, if there is one.
fn find_last_open(t: &Vec<Token>) -> (r: Option<usize>)
    ensures
        r matches Some(o) ==> is_last_open(t@, o as int),
        r is None ==> forall|j: int| 0 <= j < t@.len() ==> t@[j] != Token::Open,
{
    let mut i: usize = t.len();
    while i > 0
        invariant
            i <= t@.len(),
            forall|j: int| i <= j < t@.len() ==> t@[j] != Token::Open,
        decreases i,
    {
        if t[i - 1] == Token::Open {
            return Some(i - 1);
        }
        i = i - 1;
    }
    None
}

/// The position of the first `)`, if there is one.
fn find_first_close(t: &Vec<Token>) -> (r: Option<usize>)
    ensures
        r matches Some(c) ==> is_first_close(t@, c as int),
        r is None ==> forall|j: int| 0 <= j < t@.len() ==> t@[j] != Token::Close,
{
    let mut i: usize = 0;
    while i < t.len()
        invariant
            i <= t@.len(),
            forall|j: int| 0 <= j < i ==> t@[j] != Token::Close,
        decreases t@.len() - i,
    {
        if t[i] == Token::Close {
            return Some(i);
        }
        i = i + 1;
    }
    None
}

/// Whether the expression holds a bracket.
fn has_bracket_token(t: &Vec<Token>) -> (r: bool)
    ensures
        r == has_bracket(t@),
{
    let mut i: usize = 0;
    while i < t.len()
        invariant
            i <= t@.len(),
            forall|j: int| 0 <= j < i ==> t@[j] != Token::Open && t@[j] != Token::Close,
        decreases t@.len() - i,
    {
        if t[i] == Token::Open || t[i] == Token::Close {
            return true;
        }
        i = i + 1;
    }
    false
}

/// Replaces the innermost bracketed group by its value.
fn solve_inner(data: Vec<Token>) -> (r: Vec<Token>)
    requires
        inner_step(data@) is Some,
    ensures
        r@ == inner_step(data@).unwrap(),
{
    let o = find_last_open(&data).unwrap();
    let c = find_first_close(&data).unwrap();
    proof {
        let o2 = choose|o2: int| is_last_open(data@, o2);
        let c2 = choose|c2: int| is_first_close(data@, c2);
        assert(o2 == o);
        assert(c2 == c);
    }
    let mut inner: Vec<Token> = Vec::new();
    let mut i: usize = o + 1;
    while i < c
        invariant
            o < c < data@.len(),
            o + 1 <= i <= c,
            inner@ == data@.subrange(o + 1, i as int),
        decreases c - i,
    {
        inner.push(data[i]);
        i = i + 1;
        assert(inner@ =~= data@.subrange(o + 1, i as int));
    }
    let result = solve_outer(inner);
    let mut out: Vec<Token> = Vec::new();
    let mut j: usize = 0;
    while j < o
        invariant
            o < c < data@.len(),
            j <= o,
            out@ == data@.take(j as int),
        decreases o - j,
    {
        out.push(data[j]);
        j = j + 1;
        assert(out@ =~= data@.take(j as int));
    }
    out.push(result[0]);
    let len = data.len();
    let mut k: usize = c + 1;
    let ghost head = out@;
    while k < len
        invariant
            len == data@.len(),
            c < data@.len(),
            c + 1 <= k <= data@.len(),
            out@ == head + data@.subrange(c + 1, k as int),
        decreases data@.len() - k,
    {
        out.push(data[k]);
        k = k + 1;
        assert(out@ =~= head + data@.subrange(c + 1, k as int));
    }
    assert(data@.subrange(c + 1, data@.len() as int) =~= data@.skip(c + 1));
    out
}

/// Evaluates a letter-coded expression: digits form numbers, `a b c d` stand
/// for `+ - * /` and `e f` for `(` and `)`. Bracketed groups are evaluated
/// innermost first, and each bracket-free part from left to right without
/// precedence.
pub fn solve_equation(input: &str) -> (r: i32)
    requires
        evaluate(input@) is Some,
    ensures
        r == evaluate(input@).unwrap() as i32,
{
    let mut data = translate_input(input);
    let ghost reduced = reduce(data@).unwrap();
    while has_bracket_token(&data)
        invariant
            reduce(data@) == Some(reduced),
        decreases data@.len(),
    {
        data = solve_inner(data);
    }
    let data = solve_outer(data);
    match data[0] {
        Token::Number(v) => v as i32,
        _ => {
            assert(false);
            0
        },
    }
}

/// Translates a letter (`a` to `f`) into the operator or bracket it stands
/// for.
pub fn get_operators(character: String) -> (r: Option<String>)
    ensures
        r matches Some(s) ==> operator_of(character@) == Some(s@),
        r is None ==> operator_of(character@) is None,
{
    if character == "a".to_owned() {
        Some("+".to_owned())
    } else if character == "b".to_owned() {
        Some("-".to_owned())
    } else if character == "c".to_owned() {
        Some("*".to_owned())
    } else if character == "d".to_owned() {
        Some("/".to_owned())
    } else if character == "e".to_owned() {
        Some("(".to_owned())
    } else if character == "f".to_owned() {
        Some(")".to_owned())
    } else {
        None
    }
}

/// Applies an arithmetic operator to two numbers; `None` for anything that
/// is not one of `+ - * /`.
pub fn apply_arithmetic(operator: String, x: u16, y: u16) -> (r: Option<u16>)
    requires
        operator@ == "+"@ ==> x + y <= u16::MAX,
        operator@ == "-"@ ==> x >= y,
        operator@ == "*"@ ==> x * y <= u16::MAX,
        operator@ == "/"@ ==> y != 0,
    ensures
        r matches Some(v) ==> arithmetic_of(operator@, x, y) == Some(v as int),
        r is None ==> arithmetic_of(operator@, x, y) is None,
{
    if operator == "+".to_owned() {
        Some(x + y)
    } else if operator == "-".to_owned() {
        Some(x - y)
    } else if operator == "*".to_owned() {
        Some(x * y)
    } else if operator == "/".to_owned() {
        Some(x / y)
    } else {
        None
    }
}

} // verus!
