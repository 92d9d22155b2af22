use vstd::prelude::*;

verus! {

/// The HTTP methods a route may be declared with.
#[derive(Clone, Copy, Debug, PartialEq, Eq, Structural)]
pub enum Method {
    Get,
    Post,
    Put,
    Delete,
}

/// Why a route declaration was rejected.
#[derive(Clone, Copy, Debug, PartialEq, Eq, Structural)]
pub enum ConfigError {
    /// The method word is not one of the recognized methods.
    UnsupportedMethod,
    /// No path literal was given, or it is empty.
    MissingPath,
    /// The arguments match no supported declaration form, or the path does
    /// not begin with `/`.
    MalformedArgument,
}

/// One argument of a route declaration: a bare word (a method or a
/// middleware name) or a string literal (a path or a qualifier).
#[derive(Debug)]
pub enum DeclArg {
    Word(String),
    Text(String),
}

pub enum ArgView {
    Word(Seq<char>),
    Text(Seq<char>),
}

impl View for DeclArg {
    type V = ArgView;

    open spec fn view(&self) -> ArgView {
        match self {
            DeclArg::Word(w) => ArgView::Word(w@),
            DeclArg::Text(t) => ArgView::Text(t@),
        }
    }
}

pub open spec fn arg_views(args: Seq<DeclArg>) -> Seq<ArgView> {
    args.map_values(|a: DeclArg| a@)
}

pub open spec fn string_views(s: Seq<String>) -> Seq<Seq<char>> {
    s.map_values(|x: String| x@)
}

pub open spec fn opt_string_view(s: Option<String>) -> Option<Seq<char>> {
    match s {
        Some(x) => Some(x@),
        None => None,
    }
}

/// The method that a method word names; both the lower-case and the
/// upper-case spelling are recognized.
pub open spec fn method_named(w: Seq<char>) -> Option<Method> {
    if w == seq!['g', 'e', 't'] || w == seq!['G', 'E', 'T'] {
        Some(Method::Get)
    } else if w == seq!['p', 'o', 's', 't'] || w == seq!['P', 'O', 'S', 'T'] {
        Some(Method::Post)
    } else if w == seq!['p', 'u', 't'] || w == seq!['P', 'U', 'T'] {
        Some(Method::Put)
    } else if w == seq!['d', 'e', 'l', 'e', 't', 'e'] || w == seq!['D', 'E', 'L', 'E', 'T', 'E'] {
        Some(Method::Delete)
    } else {
        None
    }
}

/// A path is non-empty and begins with `/`.
pub open spec fn is_path_like(p: Seq<char>) -> bool {
    p.len() > 0 && p[0] == '/'
}

pub struct DescriptorView {
    pub method: Method,
    pub path: Seq<char>,
    pub handler: Seq<char>,
    pub middleware: Seq<Seq<char>>,
    pub requires_state: bool,
    pub qualifier: Option<Seq<char>>,
}

/// An immutable, validated declaration of one endpoint.
#[derive(Debug)]
pub struct RouteDescriptor {
    method: Method,
    path: String,
    handler: String,
    middleware: Vec<String>,
    requires_state: bool,
    qualifier: Option<String>,
}

impl View for RouteDescriptor {
    type V = DescriptorView;

    closed spec fn view(&self) -> DescriptorView {
        DescriptorView {
            method: self.method,
            path: self.path@,
            handler: self.handler@,
            middleware: string_views(self.middleware@),
            requires_state: self.requires_state,
            qualifier: opt_string_view(self.qualifier),
        }
    }
}

pub open spec fn is_word(a: ArgView) -> bool {
    a is Word
}

pub open spec fn word_of(a: ArgView) -> Seq<char> {
    match a {
        ArgView::Word(w) => w,
        ArgView::Text(t) => t,
    }
}

/// What validating a declaration yields. The accepted forms are: a bare
/// path (the method is GET); method and path; method, path and a qualifier
/// literal; method, path and a list of middleware names, outermost first.
pub open spec fn validated(
    handler: Seq<char>,
    args: Seq<ArgView>,
    requires_state: bool,
) -> Result<DescriptorView, ConfigError> {
    if args.len() == 0 {
        Err(ConfigError::MissingPath)
    } else {
        match args[0] {
            ArgView::Text(p) => {
                if args.len() > 1 {
                    Err(ConfigError::MalformedArgument)
                } else if p.len() == 0 {
                    Err(ConfigError::MissingPath)
                } else if p[0] != '/' {
                    Err(ConfigError::MalformedArgument)
                } else {
                    Ok(
                        DescriptorView {
                            method: Method::Get,
                            path: p,
                            handler,
                            middleware: seq![],
                            requires_state,
                            qualifier: None,
                        },
                    )
                }
            },
            ArgView::Word(m) => {
                if args.len() < 2 || is_word(args[1]) {
                    Err(ConfigError::MissingPath)
                } else if method_named(m) is None {
                    Err(ConfigError::UnsupportedMethod)
                } else {
                    let p = word_of(args[1]);
                    let rest = args.subrange(2, args.len() as int);
                    if p.len() == 0 {
                        Err(ConfigError::MissingPath)
                    } else if p[0] != '/' {
                        Err(ConfigError::MalformedArgument)
                    } else if rest.len() == 1 && !is_word(rest[0]) {
                        Ok(
                            DescriptorView {
                                method: method_named(m)->Some_0,
                                path: p,
                                handler,
                                middleware: seq![],
                                requires_state,
                                qualifier: Some(word_of(rest[0])),
                            },
                        )
                    } else if forall|i: int| 0 <= i < rest.len() ==> is_word(#[trigger] rest[i]) {
                        Ok(
                            DescriptorView {
                                method: method_named(m)->Some_0,
                                path: p,
                                handler,
                                middleware: rest.map_values(|a: ArgView| word_of(a)),
                                requires_state,
                                qualifier: None,
                            },
                        )
                    } else {
                        Err(ConfigError::MalformedArgument)
                    }
                }
            },
        }
    }
}

/// Whether two strings hold the same characters.
pub(crate) fn same_chars(a: &str, b: &str) -> (r: bool)
    ensures
        r == (a@ == b@),
{
    let n = a.unicode_len();
    if n != b.unicode_len() {
        return false;
    }
    let mut i: usize = 0;
    while i < n
        invariant
            n == a@.len(),
            n == b@.len(),
            i <= n,
            a@.subrange(0, i as int) == b@.subrange(0, i as int),
        decreases n - i,
    {
        if a.get_char(i) != b.get_char(i) {
            return false;
        }
        assert(a@.subrange(0, i + 1) == a@.subrange(0, i as int).push(a@[i as int]));
        assert(b@.subrange(0, i + 1) == b@.subrange(0, i as int).push(b@[i as int]));
        i = i + 1;
    }
    assert(a@ == a@.subrange(0, n as int));
    assert(b@ == b@.subrange(0, n as int));
    true
}

/// Looks a method word up among the recognized methods.
pub fn parse_method(w: &str) -> (r: Option<Method>)
    ensures
        r == method_named(w@),
{
    proof {
        reveal_strlit("get");
        reveal_strlit("GET");
        reveal_strlit("post");
        reveal_strlit("POST");
        reveal_strlit("put");
        reveal_strlit("PUT");
        reveal_strlit("delete");
        reveal_strlit("DELETE");
        assert("get"@ =~= seq!['g', 'e', 't']);
        assert("GET"@ =~= seq!['G', 'E', 'T']);
        assert("post"@ =~= seq!['p', 'o', 's', 't']);
        assert("POST"@ =~= seq!['P', 'O', 'S', 'T']);
        assert("put"@ =~= seq!['p', 'u', 't']);
        assert("PUT"@ =~= seq!['P', 'U', 'T']);
        assert("delete"@ =~= seq!['d', 'e', 'l', 'e', 't', 'e']);
        assert("DELETE"@ =~= seq!['D', 'E', 'L', 'E', 'T', 'E']);
    }
    if same_chars(w, "get") || same_chars(w, "GET") {
        Some(Method::Get)
    } else if same_chars(w, "post") || same_chars(w, "POST") {
        Some(Method::Post)
    } else if same_chars(w, "put") || same_chars(w, "PUT") {
        Some(Method::Put)
    } else if same_chars(w, "delete") || same_chars(w, "DELETE") {
        Some(Method::Delete)
    } else {
        None
    }
}


/// Whether a string is path-like: non-empty and beginning with `/`.
fn check_path(p: &String) -> (r: Result<(), ConfigError>)
    ensures
        r == (if p@.len() == 0 {
            Err(ConfigError::MissingPath)
        } else if p@[0] != '/' {
            Err(ConfigError::MalformedArgument)
        } else {
            Ok(())
        }),
{
    let ps = p.as_str();
    if ps.unicode_len() == 0 {
        Err(ConfigError::MissingPath)
    } else if ps.get_char(0) != '/' {
        Err(ConfigError::MalformedArgument)
    } else {
        Ok(())
    }
}

/// Turns the arguments of a route declaration on the handler `handler`
/// into a descriptor, or says why they are rejected.
pub fn validate(handler: String, args: Vec<DeclArg>, requires_state: bool) -> (r: Result<
    RouteDescriptor,
    ConfigError,
>)
    ensures
        match r {
            Ok(d) => validated(handler@, arg_views(args@), requires_state) == Ok::<
                DescriptorView,
                ConfigError,
            >(d@),
            Err(e) => validated(handler@, arg_views(args@), requires_state) == Err::<
                DescriptorView,
                ConfigError,
            >(e),
        },
        r is Ok ==> is_path_like(r->Ok_0@.path),
        r is Ok ==> r->Ok_0@.handler == handler@ && r->Ok_0@.requires_state == requires_state,
        args@.len() >= 2 && args@[0] is Word && args@[1] is Text && method_named(
            word_of(args@[0]@),
        ) is None ==> r == Err::<RouteDescriptor, ConfigError>(ConfigError::UnsupportedMethod),
{
    let ghost av = arg_views(args@);
    let n = args.len();
    if n == 0 {
        return Err(ConfigError::MissingPath);
    }
    assert(av[0] == args@[0]@);
    assert(string_views(Seq::<String>::empty()) =~= Seq::<Seq<char>>::empty());
    match &args[0] {
        DeclArg::Text(p) => {
            if n > 1 {
                return Err(ConfigError::MalformedArgument);
            }
            match check_path(p) {
                Err(e) => Err(e),
                Ok(()) => Ok(
                    RouteDescriptor {
                        method: Method::Get,
                        path: p.clone(),
                        handler,
                        middleware: Vec::new(),
                        requires_state,
                        qualifier: None,
                    },
                ),
            }
        },
        DeclArg::Word(m) => {
            if n < 2 {
                return Err(ConfigError::MissingPath);
            }
            assert(av[1] == args@[1]@);
            let p = match &args[1] {
                DeclArg::Word(_) => {
                    return Err(ConfigError::MissingPath);
                },
                DeclArg::Text(p) => p,
            };
            let method = match parse_method(m.as_str()) {
                None => {
                    return Err(ConfigError::UnsupportedMethod);
                },
                Some(x) => x,
            };
            match check_path(p) {
                Err(e) => {
                    return Err(e);
                },
                Ok(()) => {},
            }
            let ghost rest = av.subrange(2, n as int);
            if n == 3 {
                assert(rest[0] == args@[2]@);
                match &args[2] {
                    DeclArg::Text(q) => {
                        assert(rest.len() == 1 && !is_word(rest[0]));
                        return Ok(
                            RouteDescriptor {
                                method,
                                path: p.clone(),
                                handler,
                                middleware: Vec::new(),
                                requires_state,
                                qualifier: Some(q.clone()),
                            },
                        );
                    },
                    DeclArg::Word(_) => {},
                }
            }
            let mut mws: Vec<String> = Vec::new();
            let mut i: usize = 2;
            while i < n
                invariant
                    2 <= i <= n,
                    n == args@.len(),
                    av == arg_views(args@),
                    rest == av.subrange(2, n as int),
                    string_views(mws@) == rest.subrange(0, i - 2).map_values(
                        |a: ArgView| word_of(a),
                    ),
                    forall|j: int| 0 <= j < i - 2 ==> is_word(#[trigger] rest[j]),
                    av[0] == ArgView::Word(m@),
                    av[1] == ArgView::Text(p@),
                    method_named(m@) == Some(method),
                    is_path_like(p@),
                    !(rest.len() == 1 && !is_word(rest[0])),
                decreases n - i,
            {
                assert(rest[i - 2] == args@[i as int]@);
                match &args[i] {
                    DeclArg::Word(w) => {
                        let wc = w.clone();
                        assert(wc@ == w@);
                        assert(word_of(rest[i - 2]) == w@);
                        let ghost prev = mws@;
                        mws.push(wc);
                        assert(string_views(mws@) =~= string_views(prev).push(w@));
                        assert(string_views(mws@) =~= rest.subrange(0, i - 1).map_values(
                            |a: ArgView| word_of(a),
                        ));
                    },
                    DeclArg::Text(_) => {
                        assert(!is_word(rest[i - 2]));
                        return Err(ConfigError::MalformedArgument);
                    },
                }
                i = i + 1;
            }
            assert(rest.subrange(0, n - 2) =~= rest);
            assert(forall|j: int| 0 <= j < rest.len() ==> is_word(#[trigger] rest[j]));
            Ok(
                RouteDescriptor {
                    method,
                    path: p.clone(),
                    handler,
                    middleware: mws,
                    requires_state,
                    qualifier: None,
                },
            )
        },
    }
}

impl RouteDescriptor {
    pub fn method(&self) -> (r: Method)
        ensures
            r == self@.method,
    {
        self.method
    }

    pub fn path(&self) -> (r: &String)
        ensures
            r@ == self@.path,
    {
        &self.path
    }

    pub fn handler(&self) -> (r: &String)
        ensures
            r@ == self@.handler,
    {
        &self.handler
    }

    pub fn middleware(&self) -> (r: &Vec<String>)
        ensures
            string_views(r@) == self@.middleware,
    {
        &self.middleware
    }

    pub fn requires_state(&self) -> (r: bool)
        ensures
            r == self@.requires_state,
    {
        self.requires_state
    }

    pub fn qualifier(&self) -> (r: &Option<String>)
        ensures
            opt_string_view(*r) == self@.qualifier,
    {
        &self.qualifier
    }
}

} // verus!
