use vstd::prelude::*;
use vstd::string::StringExecFns;
use crate::reduce::{count_trues, lemma_count_trues_le};

verus! {

/// Declaration of `cc::Build`, the native build configuration assembled by
/// the driver; opaque here, finished and run by the caller.
#[verifier::external_type_specification]
#[verifier::external_body]
pub struct ExCcBuild(cc::Build);

/// Declaration of `tempfile::TempDir`, the scoped temporary directory that
/// owns the generated native code on disk.
#[verifier::external_type_specification]
#[verifier::external_body]
pub struct ExTempDir(tempfile::TempDir);

/// Errors returned while turning a host source file with bridge-declaration
/// macros into a native build configuration. All are fatal to the current
/// build invocation; none is recovered automatically.
#[derive(Debug)]
pub enum Error {
    /// The host source file did not exist or could not be read.
    FileReadError(String),
    /// The host source file could not be parsed.
    Syntax(String),
    /// The conversion pipeline could not turn a macro invocation into
    /// native code; carries the underlying message.
    InvalidCxx(String),
    /// No temporary directory could be created to hold the native code.
    TempDirCreationFailed(String),
    /// The native code could not be written to disk.
    FileWriteFail(String),
    /// No bridge-declaration macro was found anywhere in the file.
    NoIncludeCxxMacrosFound,
    /// A bridge-declaration macro's arguments could not be parsed.
    MacroParseFail(String),
}

/// The decimal digit character for `d`.
pub open spec fn dec_digit(d: nat) -> char {
    if d == 0 {
        '0'
    } else if d == 1 {
        '1'
    } else if d == 2 {
        '2'
    } else if d == 3 {
        '3'
    } else if d == 4 {
        '4'
    } else if d == 5 {
        '5'
    } else if d == 6 {
        '6'
    } else if d == 7 {
        '7'
    } else if d == 8 {
        '8'
    } else {
        '9'
    }
}

/// The decimal representation of `n`, most significant digit first, with
/// no leading zero except for zero itself.
pub open spec fn dec_rep(n: nat) -> Seq<char>
    decreases n,
{
    if n < 10 {
        seq![dec_digit(n)]
    } else {
        dec_rep(n / 10).push(dec_digit(n % 10))
    }
}

/// The name of the `i`-th generated native file.
pub open spec fn gen_filename_spec(i: nat) -> Seq<char> {
    "gen"@ + dec_rep(i) + ".cxx"@
}

fn digit_str(d: u64) -> (r: &'static str)
    requires
        d < 10,
    ensures
        r@ == seq![dec_digit(d as nat)],
{
    if d == 0 {
        proof {
            reveal_strlit("0");
            assert("0"@ =~= seq![dec_digit(0nat)]);
        }
        "0"
    } else if d == 1 {
        proof {
            reveal_strlit("1");
            assert("1"@ =~= seq![dec_digit(1nat)]);
        }
        "1"
    } else if d == 2 {
        proof {
            reveal_strlit("2");
            assert("2"@ =~= seq![dec_digit(2nat)]);
        }
        "2"
    } else if d == 3 {
        proof {
            reveal_strlit("3");
            assert("3"@ =~= seq![dec_digit(3nat)]);
        }
        "3"
    } else if d == 4 {
        proof {
            reveal_strlit("4");
            assert("4"@ =~= seq![dec_digit(4nat)]);
        }
        "4"
    } else if d == 5 {
        proof {
            reveal_strlit("5");
            assert("5"@ =~= seq![dec_digit(5nat)]);
        }
        "5"
    } else if d == 6 {
        proof {
            reveal_strlit("6");
            assert("6"@ =~= seq![dec_digit(6nat)]);
        }
        "6"
    } else if d == 7 {
        proof {
            reveal_strlit("7");
            assert("7"@ =~= seq![dec_digit(7nat)]);
        }
        "7"
    } else if d == 8 {
        proof {
            reveal_strlit("8");
            assert("8"@ =~= seq![dec_digit(8nat)]);
        }
        "8"
    } else {
        proof {
            reveal_strlit("9");
            assert("9"@ =~= seq![dec_digit(9nat)]);
        }
        "9"
    }
}

/// The decimal rendering of `n`.
pub fn u64_to_decimal(n: u64) -> (r: String)
    ensures
        r@ == dec_rep(n as nat),
    decreases n,
{
    if n < 10 {
        String::from_str(digit_str(n))
    } else {
        let q = n / 10;
        let d = n % 10;
        let prefix = u64_to_decimal(q);
        let r = prefix.concat(digit_str(d));
        proof {
            assert(prefix@ + seq![dec_digit(d as nat)] =~= prefix@.push(dec_digit(d as nat)));
        }
        r
    }
}

/// The name under which the `i`-th discovered macro invocation's native
/// code is written, chosen to avoid collisions across multiple invocations
/// in one file.
pub fn gen_filename(i: u64) -> (r: String)
    ensures
        r@ == gen_filename_spec(i as nat),
{
    String::from_str("gen").concat(u64_to_decimal(i).as_str()).concat(".cxx")
}

/// One pass over the top-level items of a host source file, assigning each
/// matching bridge-declaration macro invocation, in source order, the
/// native file it is generated into.
pub struct MacroScan {
    pub found: usize,
}

impl MacroScan {
    /// A scan that has seen no items yet.
    pub fn new() -> (s: MacroScan)
        ensures
            s.found == 0,
    {
        MacroScan { found: 0 }
    }

    /// Account for one top-level item, in source order. A matching macro
    /// invocation is assigned the next generated file name; any other item
    /// is ignored, which is not an error.
    pub fn on_item(&mut self, is_match: bool) -> (r: Option<String>)
        requires
            old(self).found < usize::MAX,
        ensures
            is_match ==> final(self).found == old(self).found + 1 && (r matches Option::Some(name)
                && name@ == gen_filename_spec(old(self).found as nat)),
            !is_match ==> *final(self) == *old(self) && r is None,
    {
        if is_match {
            let name = gen_filename(self.found as u64);
            self.found = self.found + 1;
            Option::Some(name)
        } else {
            Option::None
        }
    }

    /// End of the file: a file in which no bridge-declaration macro was
    /// found at all is not a valid input to the driver.
    pub fn finish(&self) -> (r: Result<usize, Error>)
        ensures
            self.found == 0 ==> (r matches Result::Err(e) && e matches
                Error::NoIncludeCxxMacrosFound),
            self.found > 0 ==> (r matches Result::Ok(c) && c == self.found),
    {
        if self.found == 0 {
            Result::Err(Error::NoIncludeCxxMacrosFound)
        } else {
            Result::Ok(self.found)
        }
    }
}

/// Turn the per-item match verdicts for one host source file into the list
/// of generated native file names, in source order: the `k`-th matching
/// invocation is written to the file named by `gen_filename_spec(k)`. A
/// file with no matching invocation at all is rejected.
pub fn plan_files(flags: &Vec<bool>) -> (r: Result<Vec<String>, Error>)
    ensures
        r matches Result::Ok(names) ==> (count_trues(flags@) > 0 && names@.len() == count_trues(
            flags@,
        ) && (forall|k: int|
            0 <= k < names@.len() ==> (#[trigger] names@[k])@ == gen_filename_spec(k as nat))),
        r matches Result::Err(e) ==> (e matches Error::NoIncludeCxxMacrosFound && count_trues(
            flags@,
        ) == 0),
{
    let mut scan = MacroScan::new();
    let mut names: Vec<String> = Vec::new();
    let flen = flags.len();
    let mut j: usize = 0;
    proof {
        assert(flags@.take(0) =~= Seq::<bool>::empty());
    }
    while j < flen
        invariant
            flags@.len() == flen as nat,
            j <= flen,
            scan.found == count_trues(flags@.take(j as int)),
            scan.found == names@.len(),
            forall|k: int|
                0 <= k < names@.len() ==> (#[trigger] names@[k])@ == gen_filename_spec(k as nat),
        decreases flen - j,
    {
        proof {
            lemma_count_trues_le(flags@.take(j as int));
        }
        let is_match = flags[j];
        let res = scan.on_item(is_match);
        match res {
            Option::Some(name) => {
                names.push(name);
            },
            Option::None => {},
        }
        proof {
            let t = flags@.take(j as int + 1);
            assert(t.drop_last() =~= flags@.take(j as int));
            assert(t.last() == flags@[j as int]);
        }
        j += 1;
    }
    proof {
        assert(flags@.take(flen as int) =~= flags@);
    }
    let fin = scan.finish();
    match fin {
        Result::Err(e) => Result::Err(e),
        Result::Ok(_) => Result::Ok(names),
    }
}

/// Whether the text of a host source file parses as a source file. The
/// parse result depends on the text alone.
pub uninterp spec fn parses(source: Seq<char>) -> bool;

/// For the text of a parseable host source file: one verdict per top-level
/// item, in source order, saying whether that item is a macro invocation
/// whose path is exactly the given single-segment name. Depends on the two
/// texts alone.
pub uninterp spec fn macro_flags(source: Seq<char>, name: Seq<char>) -> Seq<bool>;

/// Relies on syn::parse_file and syn::Path::is_ident: parses the text of a
/// host source file and maps each top-level item, in source order, to its
/// match verdict against the given macro name; the items ride along for
/// the caller. Both calls depend on their text arguments alone.
#[verifier::external_body]
fn scan_source(source: &str, name: &str) -> (r: Result<(Vec<bool>, Vec<syn::Item>), Error>)
    ensures
        r is Ok <==> parses(source@),
        r matches Result::Ok(p) ==> p.0@ == macro_flags(source@, name@) && p.1@.len()
            == p.0@.len(),
        r matches Result::Err(e) ==> e matches Error::Syntax(_),
{
    match syn::parse_file(source) {
        Ok(file) => {
            let mut flags: Vec<bool> = Vec::new();
            for item in &file.items {
                flags.push(match item {
                    syn::Item::Macro(m) => m.mac.path.is_ident(name),
                    _ => false,
                });
            }
            Ok((flags, file.items))
        }
        Err(e) => Err(Error::Syntax(format!("{}", e))),
    }
}

/// Find the bridge-declaration macro invocations in the text of one host
/// source file: hand back, in source order, the native file name each
/// invocation's generated code is written into, together with the
/// invocation items themselves for the code generator. A file that does
/// not parse is rejected as `Syntax`; a parseable file with no matching
/// invocation is rejected as `NoIncludeCxxMacrosFound`.
pub fn discover_macros(source: &str) -> (r: Result<(Vec<String>, Vec<syn::Item>), Error>)
    ensures
        !parses(source@) ==> (r matches Result::Err(e) && e matches Error::Syntax(_)),
        parses(source@) && count_trues(macro_flags(source@, "include_cxx"@)) == 0 ==> (r matches
            Result::Err(e) && e matches Error::NoIncludeCxxMacrosFound),
        parses(source@) && count_trues(macro_flags(source@, "include_cxx"@)) > 0 ==> (r matches
            Result::Ok(p) && p.0@.len() == count_trues(macro_flags(source@, "include_cxx"@))
            && p.1@.len() == p.0@.len() && (forall|k: int|
            0 <= k < p.0@.len() ==> (#[trigger] p.0@[k])@ == gen_filename_spec(k as nat))),
{
    match scan_source(source, "include_cxx") {
        Result::Err(e) => Result::Err(e),
        Result::Ok(pair) => {
            let (flags, items) = pair;
            match plan_files(&flags) {
                Result::Err(e) => Result::Err(e),
                Result::Ok(names) => {
                    proof {
                        crate::reduce::lemma_select_len(items@, flags@);
                    }
                    let macros = crate::reduce::select_by_flags(items, &flags);
                    Result::Ok((names, macros))
                },
            }
        },
    }
}

/// Relies on tempfile::tempdir: creates a fresh process-private temporary
/// directory, removed together with everything in it when the returned
/// TempDir value is dropped.
#[verifier::external_body]
fn create_temp_dir() -> (r: Result<tempfile::TempDir, Error>)
    ensures
        r matches Result::Err(e) ==> e matches Error::TempDirCreationFailed(_),
{
    match tempfile::tempdir() {
        Ok(t) => Ok(t),
        Err(e) => Err(Error::TempDirCreationFailed(format!("{}", e))),
    }
}

/// Relies on tempfile::TempDir::path: the location of the scoped temporary
/// directory, rendered as a string for the caller.
#[verifier::external_body]
fn temp_dir_path_string(t: &tempfile::TempDir) -> String {
    t.path().to_string_lossy().into_owned()
}

/// Relies on cc::Build::new: a fresh native build configuration with no
/// option set, in particular still in C (not C++) mode.
#[verifier::external_body]
fn cc_build_new() -> cc::Build {
    cc::Build::new()
}

/// Aid for converting the bridge-declaration macros of one host source file
/// into a native build. Owns a scoped temporary directory for the generated
/// native code, as well as the native build configuration that knows how to
/// build it; the directory and everything in it are removed when the
/// Builder is dropped, on every exit path, so generated files stay valid
/// exactly as long as the configuration that names them.
///
/// The three ghost fields model the owned configuration: whether it was
/// switched to C++ mode, and which flags and source files this library has
/// registered on it, in order. The model covers only what goes through this
/// type's own methods; what a caller does to the configuration fetched with
/// `builder` is its own business.
pub struct Builder {
    build: cc::Build,
    tdir: tempfile::TempDir,
    dir_path: String,
    units: usize,
    cpp_mode: Ghost<bool>,
    flags_model: Ghost<Seq<Seq<char>>>,
    files_model: Ghost<Seq<Seq<char>>>,
}

/// Relies on cc::Build::cpp: switches the owned configuration between C++
/// and C mode; the model records the mode handed over.
#[verifier::external_body]
fn builder_set_cpp(b: &mut Builder, cpp: bool)
    ensures
        final(b).spec_cpp_mode() == cpp,
        final(b).spec_flags() == old(b).spec_flags(),
        final(b).spec_files() == old(b).spec_files(),
        final(b).spec_units() == old(b).spec_units(),
        final(b).spec_path() == old(b).spec_path(),
{
    b.build.cpp(cpp);
}

/// Relies on cc::Build::flag: appends one arbitrary flag to the owned
/// configuration's native compiler invocation; the model records the flag
/// handed over.
#[verifier::external_body]
fn builder_add_flag(b: &mut Builder, flag: &str)
    ensures
        final(b).spec_flags() == old(b).spec_flags().push(flag@),
        final(b).spec_cpp_mode() == old(b).spec_cpp_mode(),
        final(b).spec_files() == old(b).spec_files(),
        final(b).spec_units() == old(b).spec_units(),
        final(b).spec_path() == old(b).spec_path(),
{
    b.build.flag(flag);
}

/// Relies on cc::Build::file: registers a source file as a compilation
/// input of the owned configuration; the model records the path handed
/// over.
#[verifier::external_body]
fn builder_add_file(b: &mut Builder, path: &str)
    ensures
        final(b).spec_files() == old(b).spec_files().push(path@),
        final(b).spec_cpp_mode() == old(b).spec_cpp_mode(),
        final(b).spec_flags() == old(b).spec_flags(),
        final(b).spec_units() == old(b).spec_units(),
        final(b).spec_path() == old(b).spec_path(),
{
    b.build.file(path);
}

impl Builder {
    /// How many native translation units have been registered.
    pub closed spec fn spec_units(&self) -> nat {
        self.units as nat
    }

    /// Whether the owned configuration has been switched to C++ mode.
    pub closed spec fn spec_cpp_mode(&self) -> bool {
        self.cpp_mode@
    }

    /// The flags this library has registered on the owned configuration,
    /// in order.
    pub closed spec fn spec_flags(&self) -> Seq<Seq<char>> {
        self.flags_model@
    }

    /// The source files this library has registered on the owned
    /// configuration as compilation inputs, in order.
    pub closed spec fn spec_files(&self) -> Seq<Seq<char>> {
        self.files_model@
    }

    /// The location of the Builder's scoped temporary directory, rendered
    /// once at construction; the same for the Builder's whole life.
    pub closed spec fn spec_path(&self) -> Seq<char> {
        self.dir_path@
    }

    /// How many native translation units have been registered.
    pub fn unit_count(&self) -> (n: usize)
        ensures
            n as nat == self.spec_units(),
    {
        self.units
    }

    /// Construct a Builder: acquire the scoped temporary directory before
    /// any file is written, and start a native build configuration that is
    /// switched to C++ mode and has nothing registered yet.
    pub fn new() -> (r: Result<Builder, Error>)
        ensures
            r matches Result::Ok(b) ==> (b.spec_units() == 0 && b.spec_cpp_mode()
                && b.spec_flags() == Seq::<Seq<char>>::empty() && b.spec_files()
                == Seq::<Seq<char>>::empty()),
            r matches Result::Err(e) ==> e matches Error::TempDirCreationFailed(_),
    {
        let t = create_temp_dir();
        match t {
            Result::Err(e) => Result::Err(e),
            Result::Ok(tdir) => {
                let build = cc_build_new();
                let dir_path = temp_dir_path_string(&tdir);
                let mut b = Builder {
                    build,
                    tdir,
                    dir_path,
                    units: 0,
                    cpp_mode: Ghost(false),
                    flags_model: Ghost(Seq::empty()),
                    files_model: Ghost(Seq::empty()),
                };
                builder_set_cpp(&mut b, true);
                Result::Ok(b)
            },
        }
    }

    /// Where the generated native files must be written: the Builder's own
    /// scoped temporary directory, the same location on every call.
    pub fn temp_dir_path(&self) -> (r: String)
        ensures
            r@ == self.spec_path(),
    {
        self.dir_path.clone()
    }

    /// Register one generated native translation unit: its file as a
    /// compilation input, and its invocation's header directory as a header
    /// search path, handed over as a `-I` flag.
    pub fn add_unit(&mut self, header_dir: &str, source_path: &str)
        requires
            old(self).spec_units() < usize::MAX,
        ensures
            final(self).spec_units() == old(self).spec_units() + 1,
            final(self).spec_flags() == old(self).spec_flags().push("-I"@ + header_dir@),
            final(self).spec_files() == old(self).spec_files().push(source_path@),
            final(self).spec_cpp_mode() == old(self).spec_cpp_mode(),
            final(self).spec_path() == old(self).spec_path(),
    {
        let flag = String::from_str("-I").concat(header_dir);
        builder_add_flag(self, flag.as_str());
        builder_add_file(self, source_path);
        self.units = self.units + 1;
    }

    /// Fetch the cc::Build from this, for the caller to finish configuring
    /// before triggering the native compilation. Handing it out disturbs
    /// nothing this library has registered.
    pub fn builder(&mut self) -> (r: &mut cc::Build)
        ensures
            final(self).spec_units() == old(self).spec_units(),
            final(self).spec_cpp_mode() == old(self).spec_cpp_mode(),
            final(self).spec_flags() == old(self).spec_flags(),
            final(self).spec_files() == old(self).spec_files(),
            final(self).spec_path() == old(self).spec_path(),
    {
        &mut self.build
    }
}

} // verus!
