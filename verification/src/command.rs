//! The line-oriented command front end: tokenizing, the two-phase
//! bind/execute protocol, and the keyword registry.

use vstd::prelude::*;

use crate::data::{Data, DataModel, infer};
use crate::database::{Database, DatabaseError};

verus! {

broadcast use vstd::seq_lib::group_seq_properties;

/// Whether `c` separates tokens: the characters with the Unicode
/// `White_Space` property, the set `char::is_whitespace` recognizes.
pub open spec fn is_whitespace(c: char) -> bool {
    let u = c as u32;
    ||| (0x09 <= u && u <= 0x0D)
    ||| u == 0x20
    ||| u == 0x85
    ||| u == 0xA0
    ||| u == 0x1680
    ||| (0x2000 <= u && u <= 0x200A)
    ||| u == 0x2028
    ||| u == 0x2029
    ||| u == 0x202F
    ||| u == 0x205F
    ||| u == 0x3000
}

/// Length of the token at the start of `s`: the number of characters
/// before the first whitespace.
pub open spec fn token_end(s: Seq<char>) -> int
    decreases s.len(),
{
    if s.len() == 0 || is_whitespace(s[0]) {
        0
    } else {
        1 + token_end(s.drop_first())
    }
}

proof fn lemma_token_end_bounds(s: Seq<char>)
    ensures
        0 <= token_end(s) <= s.len(),
        s.len() > 0 && !is_whitespace(s[0]) ==> 1 <= token_end(s),
    decreases s.len(),
{
    if s.len() > 0 && !is_whitespace(s[0]) {
        lemma_token_end_bounds(s.drop_first());
    }
}

/// The whitespace-separated tokens of `s`, in order.
pub open spec fn tokens(s: Seq<char>) -> Seq<Seq<char>>
    decreases s.len(),
    via tokens_decreases
{
    if s.len() == 0 {
        Seq::empty()
    } else if is_whitespace(s[0]) {
        tokens(s.drop_first())
    } else {
        seq![s.take(token_end(s))] + tokens(s.skip(token_end(s)))
    }
}

#[via_fn]
proof fn tokens_decreases(s: Seq<char>) {
    lemma_token_end_bounds(s);
}

/// When the first `k` characters of `s` are not whitespace and the one
/// after them (if any) is, the first token is exactly those `k`
/// characters.
proof fn lemma_token_end_from_scan(s: Seq<char>, k: int)
    requires
        0 <= k <= s.len(),
        forall|x: int| 0 <= x < k ==> !is_whitespace(#[trigger] s[x]),
        k == s.len() || is_whitespace(s[k]),
    ensures
        token_end(s) == k,
    decreases k,
{
    if k == 0 {
    } else {
        lemma_token_end_from_scan(s.drop_first(), k - 1);
    }
}

fn is_ws_exec(c: char) -> (r: bool)
    ensures
        r == is_whitespace(c),
{
    let u = c as u32;
    (0x09 <= u && u <= 0x0D) || u == 0x20 || u == 0x85 || u == 0xA0 || u == 0x1680 || (0x2000 <= u
        && u <= 0x200A) || u == 0x2028 || u == 0x2029 || u == 0x202F || u == 0x205F || u == 0x3000
}

/// Split `s` into its whitespace-separated tokens.
pub fn tokenize(s: &str) -> (r: Vec<&str>)
    ensures
        r.deep_view() == tokens(s@),
{
    let n = s.unicode_len();
    let r = tokenize_from(s, 0, n);
    proof {
        assert(s@.skip(0) =~= s@);
    }
    r
}

fn tokenize_from(s: &str, i: usize, n: usize) -> (r: Vec<&str>)
    requires
        n == s@.len(),
        i <= n,
    ensures
        r.deep_view() == tokens(s@.skip(i as int)),
    decreases n - i,
{
    if i == n {
        let r: Vec<&str> = Vec::new();
        proof {
            assert(s@.skip(i as int).len() == 0);
            assert(r.deep_view() =~= tokens(s@.skip(i as int)));
        }
        return r;
    }
    let c = s.get_char(i);
    if is_ws_exec(c) {
        let r = tokenize_from(s, i + 1, n);
        proof {
            assert(s@.skip(i as int).drop_first() =~= s@.skip(i as int + 1));
        }
        r
    } else {
        let mut j = i + 1;
        loop
            invariant
                n == s@.len(),
                i < j <= n,
                forall|x: int| i <= x < j ==> !is_whitespace(#[trigger] s@[x]),
            ensures
                i < j <= n,
                forall|x: int| i <= x < j ==> !is_whitespace(#[trigger] s@[x]),
                j == n || is_whitespace(s@[j as int]),
            decreases n - j,
        {
            if j == n {
                break ;
            }
            if is_ws_exec(s.get_char(j)) {
                break ;
            }
            j += 1;
        }
        proof {
            assert forall|x: int| 0 <= x < j - i implies !is_whitespace(
                #[trigger] s@.skip(i as int)[x],
            ) by {
                assert(s@.skip(i as int)[x] == s@[x + i]);
            }
            if j < n {
                assert(s@.skip(i as int)[j - i] == s@[j as int]);
            }
            lemma_token_end_from_scan(s@.skip(i as int), j - i);
        }
        let tok = s.substring_char(i, j);
        let mut rest = tokenize_from(s, j, n);
        let mut r: Vec<&str> = Vec::new();
        r.push(tok);
        r.append(&mut rest);
        proof {
            let t = s@.skip(i as int);
            assert(t.take(token_end(t)) =~= s@.subrange(i as int, j as int));
            assert(t.skip(token_end(t)) =~= s@.skip(j as int));
            assert(r.deep_view() =~= tokens(t));
        }
        r
    }
}

/// Why a command line was refused before it could execute.
#[derive(Debug, PartialEq, Eq)]
pub enum DatabaseCommandError {
    /// The line held no token at all.
    KeywordNotProvided,
    /// The first token is not a registered keyword.
    KeywordNotFound,
    /// A required positional argument is missing; carries the name of
    /// the missing field.
    ArgumentNotProvided(String),
}

impl DatabaseCommandError {
    /// A short description of the error, fit for showing to a caller.
    pub fn message(&self) -> (r: String)
        ensures
            r@ == match self {
                DatabaseCommandError::KeywordNotProvided => "a keyword was not provided in the command."@,
                DatabaseCommandError::KeywordNotFound => "the keyword provided was not found"@,
                DatabaseCommandError::ArgumentNotProvided(f) => "`"@ + f@
                    + "` argument not provided"@,
            },
    {
        match self {
            DatabaseCommandError::KeywordNotProvided => String::from_str(
                "a keyword was not provided in the command.",
            ),
            DatabaseCommandError::KeywordNotFound => String::from_str(
                "the keyword provided was not found",
            ),
            DatabaseCommandError::ArgumentNotProvided(f) => {
                let mut r = String::from_str("`");
                r.append(f.as_str());
                r.append("` argument not provided");
                r
            },
        }
    }
}

/// A two-phase unit of work.  A command starts unbound; a successful
/// [`DatabaseCommand::arg_parser`] binds its arguments; only a bound
/// command may execute, and executing consumes the binding, so no
/// command runs twice.
pub trait DatabaseCommand: Sized {
    /// Whether the command is bound and ready to execute.
    spec fn is_bound(&self) -> bool;

    /// What binding does: how the state after `arg_parser` and its
    /// result follow from the state before and the arguments.  Each
    /// command defines this exactly.
    spec fn bind_post(
        pre: Self,
        post: Self,
        args: Seq<Seq<char>>,
        r: Result<(), DatabaseCommandError>,
    ) -> bool;

    /// What executing does: how the database after `execute` and the
    /// result follow from the bound command and the database before.
    /// Each command defines this exactly.
    spec fn execute_post(
        pre: Self,
        db_pre: Database,
        db_post: Database,
        r: Result<usize, DatabaseError>,
    ) -> bool;

    /// Bind the positional arguments.  On failure the command is left
    /// exactly as it was.
    fn arg_parser(&mut self, args: Vec<&str>) -> (r: Result<(), DatabaseCommandError>)
        ensures
            Self::bind_post(*old(self), *final(self), args.deep_view(), r),
            r is Ok ==> final(self).is_bound(),
            r is Err ==> *final(self) == *old(self),
    ;

    /// Execute against a database.  The result of a successful
    /// execution is a table index for [`Database::table`].
    fn execute(&mut self, db: &mut Database) -> (r: Result<usize, DatabaseError>)
        requires
            old(self).is_bound(),
            old(db).wf(),
        ensures
            final(db).wf(),
            !final(self).is_bound(),
            Self::execute_post(*old(self), *old(db), *final(db), r),
    ;
}

/// The values a sequence of raw tokens denotes, per [`infer`].
pub open spec fn inferred(args: Seq<Seq<char>>) -> Seq<DataModel> {
    args.map_values(|t: Seq<char>| infer(t))
}

/// `s` with every repeated value dropped: only the first occurrence of
/// each value stays, in order.
pub open spec fn dedup_firsts(s: Seq<DataModel>) -> Seq<DataModel>
    decreases s.len(),
{
    if s.len() == 0 {
        Seq::empty()
    } else {
        let pre = dedup_firsts(s.drop_last());
        if pre.contains(s.last()) {
            pre
        } else {
            pre.push(s.last())
        }
    }
}

/// Create a table: the first argument is the table's name, the rest
/// are its attributes, all coerced through [`infer`].  A repeated
/// attribute token collapses to one column.
pub struct NewTable {
    /// The bound table name; `None` until bound and after execution.
    pub name: Option<Data>,
    /// The bound attributes; `None` until bound and after execution.
    pub attributes: Option<Vec<Data>>,
}

impl NewTable {
    /// A new, unbound instance.
    pub fn new() -> (r: NewTable)
        ensures
            r == (NewTable { name: None, attributes: None }),
    {
        NewTable { name: None, attributes: None }
    }
}

impl DatabaseCommand for NewTable {
    open spec fn is_bound(&self) -> bool {
        &&& self.name is Some
        &&& self.attributes matches Some(ats) && ats.deep_view().len() > 0
            && ats.deep_view().no_duplicates()
    }

    open spec fn bind_post(
        pre: NewTable,
        post: NewTable,
        args: Seq<Seq<char>>,
        r: Result<(), DatabaseCommandError>,
    ) -> bool {
        if args.len() == 0 {
            &&& post == pre
            &&& r matches Err(DatabaseCommandError::ArgumentNotProvided(f)) && f@ == "table name"@
        } else if args.len() == 1 {
            &&& post == pre
            &&& r matches Err(DatabaseCommandError::ArgumentNotProvided(f)) && f@ == "attributes"@
        } else {
            &&& r is Ok
            &&& post.name matches Some(nm) && nm@ == infer(args[0])
            &&& post.attributes matches Some(ats) && ats.deep_view() == dedup_firsts(
                inferred(args.skip(1)),
            )
        }
    }

    open spec fn execute_post(
        pre: NewTable,
        db_pre: Database,
        db_post: Database,
        r: Result<usize, DatabaseError>,
    ) -> bool {
        let nm = pre.name.unwrap()@;
        let ats = pre.attributes.unwrap().deep_view();
        if db_pre.has_table(nm) {
            &&& r == Err::<usize, DatabaseError>(DatabaseError::NameAlreadyExists)
            &&& db_post == db_pre
        } else {
            &&& r matches Ok(i) && i == db_pre.spec_tables().len()
            &&& db_post.spec_tables().len() == db_pre.spec_tables().len() + 1
            &&& forall|j: int|
                0 <= j < db_pre.spec_tables().len() ==> db_post.spec_tables()[j]
                    == db_pre.spec_tables()[j]
            &&& db_post.config == db_pre.config
            &&& ({
                let t = db_post.spec_tables()[db_pre.spec_tables().len() as int];
                &&& t.wf()
                &&& t.spec_name() == nm
                &&& t.spec_attrs().len() == ats.len()
                &&& (forall|a: DataModel| t.has_attr(a) <==> ats.contains(a))
                &&& t.spec_row_count() == 0
            })
        }
    }

    fn arg_parser(&mut self, args: Vec<&str>) -> (r: Result<(), DatabaseCommandError>) {
        if args.len() == 0 {
            return Err(DatabaseCommandError::ArgumentNotProvided("table name".to_owned()));
        }
        if args.len() == 1 {
            return Err(DatabaseCommandError::ArgumentNotProvided("attributes".to_owned()));
        }
        let name = Data::convert_to_correct_data_from_str(args[0]);
        proof {
            assert(args.deep_view()[0] == args@[0]@);
        }
        let alen = args.len();
        let mut attributes: Vec<Data> = Vec::new();
        let mut i: usize = 1;
        while i < alen
            invariant
                alen == args@.len(),
                1 <= i <= alen,
                attributes.deep_view() == dedup_firsts(inferred(args.deep_view().subrange(1, i as int))),
                i > 1 ==> attributes.deep_view().len() > 0,
                attributes.deep_view().no_duplicates(),
            decreases alen - i,
        {
            let d = Data::convert_to_correct_data_from_str(args[i]);
            proof {
                assert(args.deep_view()[i as int] == args@[i as int]@);
            }
            let ghost pre_inf = inferred(args.deep_view().subrange(1, i as int));
            proof {
                assert(args.deep_view().subrange(1, i as int).push(args.deep_view()[i as int])
                    =~= args.deep_view().subrange(1, i as int + 1));
                assert(pre_inf.push(d@) =~= inferred(args.deep_view().subrange(1, i as int + 1)))
                    by {
                    assert(inferred(args.deep_view().subrange(1, i as int).push(
                        args.deep_view()[i as int],
                    )) =~= pre_inf.push(d@));
                }
                assert(inferred(args.deep_view().subrange(1, i as int + 1)).drop_last()
                    =~= pre_inf);
            }
            let ghost pre_dv = attributes.deep_view();
            if !contains_data(&attributes, &d) {
                attributes.push(d);
                proof {
                    let s = attributes.deep_view();
                    assert(s =~= pre_dv.push(d@));
                    assert forall|x: int, y: int|
                        0 <= x < s.len() && 0 <= y < s.len() && x != y implies s[x] != s[y] by {
                        if x < pre_dv.len() && y < pre_dv.len() {
                        } else if x < pre_dv.len() {
                            assert(pre_dv.contains(pre_dv[x]));
                        } else {
                            assert(pre_dv.contains(pre_dv[y]));
                        }
                    }
                }
            }
            i += 1;
        }
        proof {
            assert(args.deep_view().subrange(1, alen as int) =~= args.deep_view().skip(1));
        }
        self.name = Some(name);
        self.attributes = Some(attributes);
        Ok(())
    }

    fn execute(&mut self, db: &mut Database) -> (r: Result<usize, DatabaseError>) {
        let mut nm: Option<Data> = None;
        let mut ats: Option<Vec<Data>> = None;
        core::mem::swap(&mut self.name, &mut nm);
        core::mem::swap(&mut self.attributes, &mut ats);
        db.add_table(nm.unwrap(), ats.unwrap())
    }
}

/// A successful `NewTable` execution registers the table under the
/// bound name: the database then has that name, so a `GetTable` for it
/// is owed success by [`Database::get_table`]'s contract, and the
/// index a successful execution returned reaches a table of that name
/// with no rows.
pub proof fn lemma_new_table_registers(
    pre: NewTable,
    db_pre: Database,
    db_post: Database,
    r: Result<usize, DatabaseError>,
)
    requires
        pre.name is Some,
        NewTable::execute_post(pre, db_pre, db_post, r),
        r is Ok,
    ensures
        db_post.has_table(pre.name.unwrap()@),
        ({
            let t = db_post.spec_tables()[r.unwrap() as int];
            t.spec_name() == pre.name.unwrap()@ && t.spec_row_count() == 0
        }),
{
    let nm = pre.name.unwrap()@;
    let i = db_pre.spec_tables().len() as int;
    assert(db_post.spec_tables()[i].spec_name() == nm);
    assert(db_post.spec_names()[i] == nm);
}

/// Look a table up by name.  The single argument is the table's name,
/// coerced through [`infer`]; any further arguments are ignored.
pub struct GetTable {
    /// The bound table name; `None` until bound and after execution.
    pub name: Option<Data>,
}

impl GetTable {
    /// A new, unbound instance.
    pub fn new() -> (r: GetTable)
        ensures
            r == (GetTable { name: None }),
    {
        GetTable { name: None }
    }
}

impl DatabaseCommand for GetTable {
    open spec fn is_bound(&self) -> bool {
        self.name is Some
    }

    open spec fn bind_post(
        pre: GetTable,
        post: GetTable,
        args: Seq<Seq<char>>,
        r: Result<(), DatabaseCommandError>,
    ) -> bool {
        if args.len() == 0 {
            &&& post == pre
            &&& r matches Err(DatabaseCommandError::ArgumentNotProvided(f)) && f@ == "table name"@
        } else {
            &&& r is Ok
            &&& post.name matches Some(nm) && nm@ == infer(args[0])
        }
    }

    open spec fn execute_post(
        pre: GetTable,
        db_pre: Database,
        db_post: Database,
        r: Result<usize, DatabaseError>,
    ) -> bool {
        let nm = pre.name.unwrap()@;
        &&& db_post == db_pre
        &&& if db_pre.has_table(nm) {
            r matches Ok(i) && 0 <= i < db_pre.spec_tables().len() && db_pre.spec_tables()[
                i as int
            ].spec_name() == nm
        } else {
            r == Err::<usize, DatabaseError>(DatabaseError::NameDoesNotExist)
        }
    }

    fn arg_parser(&mut self, args: Vec<&str>) -> (r: Result<(), DatabaseCommandError>) {
        if args.len() == 0 {
            return Err(DatabaseCommandError::ArgumentNotProvided("table name".to_owned()));
        }
        let name = Data::convert_to_correct_data_from_str(args[0]);
        proof {
            assert(args.deep_view()[0] == args@[0]@);
        }
        self.name = Some(name);
        Ok(())
    }

    fn execute(&mut self, db: &mut Database) -> (r: Result<usize, DatabaseError>) {
        let mut nm: Option<Data> = None;
        core::mem::swap(&mut self.name, &mut nm);
        db.get_table(&nm.unwrap())
    }
}

/// One of the built-in commands, as produced by
/// [`DefaultCommandParser`].  Another registry may produce its own
/// command type instead; the vocabulary here is what the default
/// registry knows.
pub enum Command {
    /// A [`NewTable`] command.
    NewTable(NewTable),
    /// A [`GetTable`] command.
    GetTable(GetTable),
}

impl DatabaseCommand for Command {
    open spec fn is_bound(&self) -> bool {
        match self {
            Command::NewTable(c) => c.is_bound(),
            Command::GetTable(c) => c.is_bound(),
        }
    }

    open spec fn bind_post(
        pre: Command,
        post: Command,
        args: Seq<Seq<char>>,
        r: Result<(), DatabaseCommandError>,
    ) -> bool {
        match (pre, post) {
            (Command::NewTable(a), Command::NewTable(b)) => NewTable::bind_post(a, b, args, r),
            (Command::GetTable(a), Command::GetTable(b)) => GetTable::bind_post(a, b, args, r),
            _ => false,
        }
    }

    open spec fn execute_post(
        pre: Command,
        db_pre: Database,
        db_post: Database,
        r: Result<usize, DatabaseError>,
    ) -> bool {
        match pre {
            Command::NewTable(c) => NewTable::execute_post(c, db_pre, db_post, r),
            Command::GetTable(c) => GetTable::execute_post(c, db_pre, db_post, r),
        }
    }

    fn arg_parser(&mut self, args: Vec<&str>) -> (r: Result<(), DatabaseCommandError>) {
        match self {
            Command::NewTable(c) => c.arg_parser(args),
            Command::GetTable(c) => c.arg_parser(args),
        }
    }

    fn execute(&mut self, db: &mut Database) -> (r: Result<usize, DatabaseError>) {
        match self {
            Command::NewTable(c) => c.execute(db),
            Command::GetTable(c) => c.execute(db),
        }
    }
}

/// A registry from keywords to commands.  [`CommandParser::parse`]
/// runs the whole front end for one line; a registry only has to say
/// which command each keyword denotes.  Adding a command kind never
/// touches the parse algorithm.
pub trait CommandParser: Sized {
    /// The commands this registry produces.
    type Cmd: DatabaseCommand;

    /// The registry itself: the unbound command each keyword denotes,
    /// or nothing for an unknown keyword.
    spec fn keyword_lookup(&self, keyword: Seq<char>) -> Option<Self::Cmd>;

    /// Construct the unbound command a keyword denotes.
    fn keyword_parser(&self, keyword: &str) -> (r: Result<Self::Cmd, DatabaseCommandError>)
        ensures
            match self.keyword_lookup(keyword@) {
                Some(c) => r == Ok::<Self::Cmd, DatabaseCommandError>(c),
                None => r == Err::<Self::Cmd, DatabaseCommandError>(
                    DatabaseCommandError::KeywordNotFound,
                ),
            },
    ;

    /// Parse one line of input: split it on whitespace, take the first
    /// token as the keyword, construct that keyword's command and bind
    /// the remaining tokens as its arguments.  An empty line and an
    /// unknown keyword are refused; a bind failure is handed through
    /// unchanged.
    fn parse(&self, input: &str) -> (r: Result<Self::Cmd, DatabaseCommandError>)
        ensures
            ({
                let toks = tokens(input@);
                if toks.len() == 0 {
                    r == Err::<Self::Cmd, DatabaseCommandError>(
                        DatabaseCommandError::KeywordNotProvided,
                    )
                } else {
                    match self.keyword_lookup(toks[0]) {
                        None => r == Err::<Self::Cmd, DatabaseCommandError>(
                            DatabaseCommandError::KeywordNotFound,
                        ),
                        Some(c0) => match r {
                            Ok(c) => Self::Cmd::bind_post(c0, c, toks.skip(1), Ok(()))
                                && c.is_bound(),
                            Err(e) => Self::Cmd::bind_post(c0, c0, toks.skip(1), Err(e)),
                        },
                    }
                }
            }),
    {
        let toks = tokenize(input);
        if toks.len() == 0 {
            return Err(DatabaseCommandError::KeywordNotProvided);
        }
        proof {
            assert(toks.deep_view()[0] == toks@[0]@);
        }
        let mut cmd = match self.keyword_parser(toks[0]) {
            Ok(c) => c,
            Err(e) => {
                return Err(e);
            },
        };
        let tlen = toks.len();
        let mut args: Vec<&str> = Vec::new();
        let mut i: usize = 1;
        while i < tlen
            invariant
                tlen == toks@.len(),
                1 <= i <= tlen,
                args.deep_view() =~= toks.deep_view().subrange(1, i as int),
            decreases tlen - i,
        {
            let ghost pre_args = args.deep_view();
            args.push(toks[i]);
            proof {
                assert(toks.deep_view()[i as int] == toks@[i as int]@);
                assert(args.deep_view() =~= pre_args.push(toks.deep_view()[i as int]));
                assert(toks.deep_view().subrange(1, i as int).push(toks.deep_view()[i as int])
                    =~= toks.deep_view().subrange(1, i as int + 1));
                assert(args.deep_view() =~= toks.deep_view().subrange(1, i as int + 1));
            }
            i += 1;
        }
        proof {
            assert(args.deep_view() =~= tokens(input@).skip(1));
        }
        match cmd.arg_parser(args) {
            Ok(u) => {
                proof {
                    assert(u == ());
                    assert(Ok::<(), DatabaseCommandError>(u) == Ok::<(), DatabaseCommandError>(
                        (),
                    ));
                }
                Ok(cmd)
            },
            Err(e) => Err(e),
        }
    }
}

/// The registry of the built-in commands: `NewTable` and `GetTable`.
pub struct DefaultCommandParser;

impl CommandParser for DefaultCommandParser {
    type Cmd = Command;

    open spec fn keyword_lookup(&self, keyword: Seq<char>) -> Option<Command> {
        if keyword == "NewTable"@ {
            Some(Command::NewTable(NewTable { name: None, attributes: None }))
        } else if keyword == "GetTable"@ {
            Some(Command::GetTable(GetTable { name: None }))
        } else {
            None
        }
    }

    fn keyword_parser(&self, keyword: &str) -> (r: Result<Command, DatabaseCommandError>) {
        if str_eq_str(keyword, "NewTable") {
            Ok(Command::NewTable(NewTable::new()))
        } else if str_eq_str(keyword, "GetTable") {
            Ok(Command::GetTable(GetTable::new()))
        } else {
            Err(DatabaseCommandError::KeywordNotFound)
        }
    }
}

/// Decides whether `v` already holds a value with `d`'s model.
fn contains_data(v: &Vec<Data>, d: &Data) -> (r: bool)
    ensures
        r == v.deep_view().contains(d@),
{
    let n = v.len();
    let mut i: usize = 0;
    while i < n
        invariant
            n == v@.len(),
            i <= n,
            forall|x: int| 0 <= x < i ==> #[trigger] v.deep_view()[x] != d@,
        decreases n - i,
    {
        proof {
            assert(v.deep_view()[i as int] == v@[i as int]@);
        }
        if crate::data::data_eq(&v[i], d) {
            return true;
        }
        i += 1;
    }
    proof {
        if v.deep_view().contains(d@) {
            let w = choose|w: int|
                0 <= w < v.deep_view().len() && #[trigger] v.deep_view()[w] == d@;
        }
    }
    false
}

/// Decides whether two strings hold the same characters.
pub fn str_eq_str(a: &str, b: &str) -> (r: bool)
    ensures
        r == (a@ == b@),
{
    let alen = a.unicode_len();
    let blen = b.unicode_len();
    if alen != blen {
        proof {
            assert(a@.len() != b@.len());
        }
        return false;
    }
    let mut i: usize = 0;
    while i < alen
        invariant
            alen == a@.len(),
            alen == b@.len(),
            i <= alen,
            forall|x: int| 0 <= x < i ==> a@[x] == b@[x],
        decreases alen - i,
    {
        if a.get_char(i) != b.get_char(i) {
            return false;
        }
        i += 1;
    }
    proof {
        assert(a@ =~= b@);
    }
    true
}

} // verus!
