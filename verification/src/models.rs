use vstd::prelude::*;

verus! {

/// A lexical token of the template language.
///
/// `Text`, `Space` and `NewLine` come from literal-text mode; the rest are
/// produced inside a `::...::` tag. `Space` records the length of a run of
/// blanks, and `Number` holds a signed 32-bit value.
#[derive(Debug, Clone, PartialEq)]
pub enum Token {
    Text(String),
    Space(i32),
    NewLine,
    Identifier(String),
    Number(i32),
    String(String),
    DelimiterLeft,
    DelimiterRight,
    Dot,
    Plus,
    Minus,
    Star,
    Slash,
    Hash,
    Colon,
    Bang,
    Equal,
    BangEqual,
    Greater,
    GreaterEqual,
    Less,
    LessEqual,
    ForOpen,
    ForClose,
    IfOpen,
    Else,
    IfClose,
}

/// The mathematical image of a [`Token`]: strings become character
/// sequences and machine integers become unbounded integers.
pub enum TokenModel {
    Text(Seq<char>),
    Space(int),
    NewLine,
    Identifier(Seq<char>),
    Number(int),
    String(Seq<char>),
    DelimiterLeft,
    DelimiterRight,
    Dot,
    Plus,
    Minus,
    Star,
    Slash,
    Hash,
    Colon,
    Bang,
    Equal,
    BangEqual,
    Greater,
    GreaterEqual,
    Less,
    LessEqual,
    ForOpen,
    ForClose,
    IfOpen,
    Else,
    IfClose,
}

impl View for Token {
    type V = TokenModel;

    open spec fn view(&self) -> TokenModel {
        match self {
            Token::Text(s) => TokenModel::Text(s@),
            Token::Space(n) => TokenModel::Space(*n as int),
            Token::NewLine => TokenModel::NewLine,
            Token::Identifier(s) => TokenModel::Identifier(s@),
            Token::Number(n) => TokenModel::Number(*n as int),
            Token::String(s) => TokenModel::String(s@),
            Token::DelimiterLeft => TokenModel::DelimiterLeft,
            Token::DelimiterRight => TokenModel::DelimiterRight,
            Token::Dot => TokenModel::Dot,
            Token::Plus => TokenModel::Plus,
            Token::Minus => TokenModel::Minus,
            Token::Star => TokenModel::Star,
            Token::Slash => TokenModel::Slash,
            Token::Hash => TokenModel::Hash,
            Token::Colon => TokenModel::Colon,
            Token::Bang => TokenModel::Bang,
            Token::Equal => TokenModel::Equal,
            Token::BangEqual => TokenModel::BangEqual,
            Token::Greater => TokenModel::Greater,
            Token::GreaterEqual => TokenModel::GreaterEqual,
            Token::Less => TokenModel::Less,
            Token::LessEqual => TokenModel::LessEqual,
            Token::ForOpen => TokenModel::ForOpen,
            Token::ForClose => TokenModel::ForClose,
            Token::IfOpen => TokenModel::IfOpen,
            Token::Else => TokenModel::Else,
            Token::IfClose => TokenModel::IfClose,
        }
    }
}

impl DeepView for Token {
    type V = TokenModel;

    open spec fn deep_view(&self) -> TokenModel {
        self.view()
    }
}

/// A binary or unary operator of the expression grammar.
#[derive(Debug, Clone, Copy, PartialEq, Eq, Structural)]
pub enum Operator {
    Plus,
    Minus,
    Star,
    Slash,
    BangEqual,
    Equal,
    Greater,
    GreaterEqual,
    Less,
    LessEqual,
    Bang,
}

/// An expression tree: leaves are identifiers, numbers and string
/// literals; interior nodes apply an [`Operator`] to one or two subtrees.
#[derive(Debug, PartialEq)]
pub enum Expression {
    Identifier(String),
    Number(i32),
    String(String),
    Binary(Box<Expression>, Operator, Box<Expression>),
    Unary(Operator, Box<Expression>),
}

/// The mathematical image of an [`Expression`].
pub enum ExpressionModel {
    Identifier(Seq<char>),
    Number(int),
    String(Seq<char>),
    Binary(Box<ExpressionModel>, Operator, Box<ExpressionModel>),
    Unary(Operator, Box<ExpressionModel>),
}

/// Maps an expression tree to its mathematical image, leaf by leaf.
pub open spec fn expression_model(e: Expression) -> ExpressionModel
    decreases e,
{
    match e {
        Expression::Identifier(s) => ExpressionModel::Identifier(s@),
        Expression::Number(n) => ExpressionModel::Number(n as int),
        Expression::String(s) => ExpressionModel::String(s@),
        Expression::Binary(l, op, r) => ExpressionModel::Binary(
            Box::new(expression_model(*l)),
            op,
            Box::new(expression_model(*r)),
        ),
        Expression::Unary(op, x) => ExpressionModel::Unary(op, Box::new(expression_model(*x))),
    }
}

impl DeepView for Expression {
    type V = ExpressionModel;

    open spec fn deep_view(&self) -> ExpressionModel {
        expression_model(*self)
    }
}

/// One element of a parsed template: literal text, a `::...::` substitution
/// site, or one of the structural block forms that the data model reserves
/// for a future nested grammar.
#[derive(Debug, PartialEq)]
pub enum Fragment {
    Text(String),
    Tag(Expression),
    IfBlock(Expression, Box<Vec<Fragment>>),
    ForBlock(Expression, Box<Vec<Fragment>>),
}

/// The mathematical image of a [`Fragment`].
pub enum FragmentModel {
    Text(Seq<char>),
    Tag(ExpressionModel),
    IfBlock(ExpressionModel, Seq<FragmentModel>),
    ForBlock(ExpressionModel, Seq<FragmentModel>),
}

/// Maps a fragment to its mathematical image.
pub open spec fn fragment_model(f: Fragment) -> FragmentModel
    decreases f,
{
    match f {
        Fragment::Text(s) => FragmentModel::Text(s@),
        Fragment::Tag(e) => FragmentModel::Tag(expression_model(e)),
        Fragment::IfBlock(e, fs) => FragmentModel::IfBlock(
            expression_model(e),
            fragments_model((*fs)@),
        ),
        Fragment::ForBlock(e, fs) => FragmentModel::ForBlock(
            expression_model(e),
            fragments_model((*fs)@),
        ),
    }
}

/// Maps each fragment of a sequence to its mathematical image.
pub open spec fn fragments_model(fs: Seq<Fragment>) -> Seq<FragmentModel>
    decreases fs,
{
    if fs.len() == 0 {
        Seq::empty()
    } else {
        seq![fragment_model(fs.first())] + fragments_model(fs.drop_first())
    }
}

impl DeepView for Fragment {
    type V = FragmentModel;

    open spec fn deep_view(&self) -> FragmentModel {
        fragment_model(*self)
    }
}

/// The complete parse of a template: its fragments in source order.
#[derive(Debug, PartialEq)]
pub struct Program {
    pub fragments: Vec<Fragment>,
}

impl DeepView for Program {
    type V = Seq<FragmentModel>;

    open spec fn deep_view(&self) -> Seq<FragmentModel> {
        self.fragments.deep_view()
    }
}

/// Why a parse stopped: the expression grammar met a token that is not a
/// literal, or the token stream ended where an expression was required.
#[derive(Debug, PartialEq)]
pub enum ParseError {
    UnexpectedToken(Token),
    UnexpectedEnd,
}

/// The mathematical image of a [`ParseError`].
pub enum ParseErrorModel {
    UnexpectedToken(TokenModel),
    UnexpectedEnd,
}

impl DeepView for ParseError {
    type V = ParseErrorModel;

    open spec fn deep_view(&self) -> ParseErrorModel {
        match self {
            ParseError::UnexpectedToken(t) => ParseErrorModel::UnexpectedToken(t@),
            ParseError::UnexpectedEnd => ParseErrorModel::UnexpectedEnd,
        }
    }
}

} // verus!
