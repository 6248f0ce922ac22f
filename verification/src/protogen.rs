//! The text of the module files that stand around generated protocol sources, and the command
//! line of the flatbuffers compiler.
use vstd::prelude::*;

verus! {

/// The protocol buffer module whose file is not named after it.
pub open spec fn jaeger_storage_module() -> Seq<char> {
    "jaeger_storage_v1"@
}

/// The line that declares a public module.
pub open spec fn mod_line(name: Seq<char>) -> Seq<char> {
    "pub mod "@ + name + ";\n"@
}

/// The lines that declare some public modules.
pub open spec fn mod_lines(names: Seq<String>) -> Seq<char>
    decreases names.len(),
{
    if names.len() == 0 {
        Seq::empty()
    } else {
        mod_lines(names.drop_last()) + mod_line(names.last()@)
    }
}

/// The line that says in which file a module stands.
pub open spec fn path_line(file: Seq<char>) -> Seq<char> {
    "#["@ + "path = \""@ + file + "\"]"@ + "\n"@
}

/// The lines that declare some protocol buffer modules.
pub open spec fn protobuf_lines(names: Seq<String>) -> Seq<char>
    decreases names.len(),
{
    if names.len() == 0 {
        Seq::empty()
    } else {
        let name = names.last()@;
        let earlier = protobuf_lines(names.drop_last());
        if name == jaeger_storage_module() {
            earlier + path_line("jaeger.storage.v1.rs"@) + mod_line(name)
        } else {
            earlier + mod_line(name)
        }
    }
}

/// The lines that pass on all that some flatbuffers modules hold.
pub open spec fn reexport_lines(names: Seq<String>) -> Seq<char>
    decreases names.len(),
{
    if names.len() == 0 {
        Seq::empty()
    } else {
        reexport_lines(names.drop_last()) + "pub use flatbuffers_generated::"@ + names.last()@
            + "::*;\n"@
    }
}

/// What the module file above the generated sources starts with.
pub open spec fn generated_header() -> Seq<char> {
    "#![allow(unused_imports)]\n"@ + "#![allow(clippy::all)]\n"@ + "mod protobuf_generated;\n"@
        + "pub use protobuf_generated::*;\n"@ + "\n"@ + "mod flatbuffers_generated;\n"@
}

/// What comes before the first dot of a file name: all of it where there is no dot.
pub open spec fn before_first_dot(file_name: Seq<char>) -> Seq<char>
    decreases file_name.len(),
{
    if file_name.len() == 0 || file_name.first() == '.' {
        Seq::empty()
    } else {
        seq![file_name.first()] + before_first_dot(file_name.drop_first())
    }
}

/// Appends the line that declares a public module.
fn push_mod_line(out: &mut String, name: &String)
    ensures
        final(out)@ == old(out)@ + mod_line(name@),
{
    out.append("pub mod ");
    out.append(name.as_str());
    out.append(";\n");
    assert(out@ =~= old(out)@ + mod_line(name@));
}

/// The text of a module file that declares the given public modules.
pub fn mod_file(names: &Vec<String>) -> (text: String)
    ensures
        text@ == mod_lines(names@),
{
    let mut out = String::new();
    let mut i: usize = 0;
    assert(names@.take(0) =~= Seq::empty());
    while i < names.len()
        invariant
            i <= names@.len(),
            out@ == mod_lines(names@.take(i as int)),
        decreases names@.len() - i,
    {
        push_mod_line(&mut out, &names[i]);
        proof {
            let longer = names@.take(i + 1);
            assert(longer.drop_last() =~= names@.take(i as int));
            assert(longer.last() == names@[i as int]);
        }
        i += 1;
    }
    assert(names@.take(i as int) =~= names@);
    out
}

/// The text of the module file of the protocol buffer modules.
pub fn protobuf_mod_file(names: &Vec<String>) -> (text: String)
    ensures
        text@ == protobuf_lines(names@),
{
    let mut out = String::new();
    let jaeger_storage: String = "jaeger_storage_v1".to_owned();
    let mut i: usize = 0;
    assert(names@.take(0) =~= Seq::empty());
    while i < names.len()
        invariant
            i <= names@.len(),
            jaeger_storage@ == jaeger_storage_module(),
            out@ == protobuf_lines(names@.take(i as int)),
        decreases names@.len() - i,
    {
        let ghost earlier = out@;
        if names[i] == jaeger_storage {
            out.append("#[");
            out.append("path = \"");
            out.append("jaeger.storage.v1.rs");
            out.append("\"]");
            out.append("\n");
            assert(out@ =~= earlier + path_line("jaeger.storage.v1.rs"@));
        }
        push_mod_line(&mut out, &names[i]);
        proof {
            let longer = names@.take(i + 1);
            assert(longer.drop_last() =~= names@.take(i as int));
            assert(longer.last() == names@[i as int]);
        }
        i += 1;
    }
    assert(names@.take(i as int) =~= names@);
    out
}

/// The text of the module file above the generated sources: it declares the two kinds, and passes
/// on all that they hold.
pub fn generated_mod_file(flatbuffers_modules: &Vec<String>) -> (text: String)
    ensures
        text@ == generated_header() + reexport_lines(flatbuffers_modules@),
{
    let mut out = String::new();
    out.append("#![allow(unused_imports)]\n");
    out.append("#![allow(clippy::all)]\n");
    out.append("mod protobuf_generated;\n");
    out.append("pub use protobuf_generated::*;\n");
    out.append("\n");
    out.append("mod flatbuffers_generated;\n");
    assert(out@ =~= generated_header());
    let names = flatbuffers_modules;
    let mut i: usize = 0;
    assert(out@ =~= generated_header() + reexport_lines(names@.take(0)));
    while i < names.len()
        invariant
            i <= names@.len(),
            out@ == generated_header() + reexport_lines(names@.take(i as int)),
        decreases names@.len() - i,
    {
        out.append("pub use flatbuffers_generated::");
        out.append(names[i].as_str());
        out.append("::*;\n");
        proof {
            let longer = names@.take(i + 1);
            assert(longer.drop_last() =~= names@.take(i as int));
            assert(longer.last() == names@[i as int]);
            assert(out@ =~= generated_header() + reexport_lines(longer));
        }
        i += 1;
    }
    assert(names@.take(i as int) =~= names@);
    out
}

/// The module of a schema file: what comes before the first dot of its name.
pub fn module_name(file_name: &str) -> (name: String)
    ensures
        name@ == before_first_dot(file_name@),
{
    let len: usize = file_name.unicode_len();
    let mut i: usize = 0;
    assert(file_name@.skip(0) =~= file_name@);
    assert(before_first_dot(file_name@) =~= file_name@.take(0) + before_first_dot(
        file_name@.skip(0),
    ));
    while i < len && file_name.get_char(i) != '.'
        invariant
            i <= len,
            len == file_name@.len(),
            before_first_dot(file_name@) == file_name@.take(i as int) + before_first_dot(
                file_name@.skip(i as int),
            ),
        decreases len - i,
    {
        proof {
            let rest = file_name@.skip(i as int);
            assert(rest.drop_first() =~= file_name@.skip(i + 1));
            assert(before_first_dot(file_name@) =~= file_name@.take(i + 1) + before_first_dot(
                file_name@.skip(i + 1),
            ));
        }
        i += 1;
    }
    assert(before_first_dot(file_name@) =~= file_name@.take(i as int));
    file_name.substring_char(0, i).to_owned()
}

/// The flatbuffers compiler to run: the one that the environment names, or else `flatc`.
pub fn flatc_path(named: Option<String>) -> (path: String)
    ensures
        path@ == match named {
            Some(path) => path@,
            None => "flatc"@,
        },
{
    match named {
        Some(path) => path,
        None => "flatc".to_owned(),
    }
}

/// The arguments of the flatbuffers compiler.
pub open spec fn flatc_arguments(output_dir: Seq<char>, schema: Seq<char>) -> Seq<Seq<char>> {
    seq![
        "-o"@,
        output_dir,
        "--rust"@,
        "--gen-mutable"@,
        "--gen-onefile"@,
        "--gen-name-strings"@,
        "--filename-suffix"@,
        ""@,
        schema,
    ]
}

/// The arguments with which the flatbuffers compiler puts the Rust source of a schema file into a
/// directory.
pub fn flatc_args(output_dir: &str, schema: &str) -> (args: Vec<String>)
    ensures
        args@.map_values(|a: String| a@) == flatc_arguments(output_dir@, schema@),
{
    let mut args: Vec<String> = Vec::new();
    args.push("-o".to_owned());
    args.push(output_dir.to_owned());
    args.push("--rust".to_owned());
    args.push("--gen-mutable".to_owned());
    args.push("--gen-onefile".to_owned());
    args.push("--gen-name-strings".to_owned());
    args.push("--filename-suffix".to_owned());
    args.push("".to_owned());
    args.push(schema.to_owned());
    assert(args@.map_values(|a: String| a@) =~= flatc_arguments(output_dir@, schema@));
    args
}

/// The declarations of two lists of modules, one behind the other, are those of the first followed
/// by those of the second; a single module is declared in one line.
pub proof fn law_mod_lines(a: Seq<String>, b: Seq<String>, name: String)
    ensures
        mod_lines(a + b) == mod_lines(a) + mod_lines(b),
        mod_lines(seq![name]) == "pub mod "@ + name@ + ";\n"@,
        mod_lines(Seq::empty()) == Seq::<char>::empty(),
    decreases b.len(),
{
    if b.len() == 0 {
        assert(a + b =~= a);
        assert(mod_lines(a) + mod_lines(b) =~= mod_lines(a));
    } else {
        law_mod_lines(a, b.drop_last(), name);
        assert((a + b).drop_last() =~= a + b.drop_last());
        assert((a + b).last() == b.last());
        assert(mod_lines(a + b) =~= mod_lines(a) + mod_lines(b));
    }
    assert(seq![name].drop_last() =~= Seq::empty());
    assert(mod_lines(Seq::empty()) =~= Seq::<char>::empty());
    assert(mod_lines(seq![name]) =~= "pub mod "@ + name@ + ";\n"@);
}

/// The same of protocol buffer modules: a single one is declared as any other module, but that of
/// the Jaeger storage, whose file is named first.
pub proof fn law_protobuf_lines(a: Seq<String>, b: Seq<String>, name: String)
    ensures
        protobuf_lines(a + b) == protobuf_lines(a) + protobuf_lines(b),
        name@ != "jaeger_storage_v1"@ ==> protobuf_lines(seq![name]) == mod_lines(seq![name]),
        name@ == "jaeger_storage_v1"@ ==> protobuf_lines(seq![name]) == "#["@ + "path = \""@
            + "jaeger.storage.v1.rs"@ + "\"]"@ + "\n"@ + mod_lines(seq![name]),
        protobuf_lines(Seq::empty()) == Seq::<char>::empty(),
    decreases b.len(),
{
    law_mod_lines(a, b, name);
    if b.len() == 0 {
        assert(a + b =~= a);
        assert(protobuf_lines(a) + protobuf_lines(b) =~= protobuf_lines(a));
    } else {
        law_protobuf_lines(a, b.drop_last(), name);
        assert((a + b).drop_last() =~= a + b.drop_last());
        assert((a + b).last() == b.last());
        assert(protobuf_lines(a + b) =~= protobuf_lines(a) + protobuf_lines(b));
    }
    assert(seq![name].drop_last() =~= Seq::empty());
    assert(protobuf_lines(Seq::empty()) =~= Seq::<char>::empty());
    if name@ == "jaeger_storage_v1"@ {
        assert(protobuf_lines(seq![name]) =~= "#["@ + "path = \""@ + "jaeger.storage.v1.rs"@
            + "\"]"@ + "\n"@ + mod_lines(seq![name]));
    } else {
        assert(protobuf_lines(seq![name]) =~= mod_lines(seq![name]));
    }
}

/// What two lists of flatbuffers modules hold is passed on by the lines of the first followed by
/// those of the second; a single module takes one line.
pub proof fn law_reexport_lines(a: Seq<String>, b: Seq<String>, name: String)
    ensures
        reexport_lines(a + b) == reexport_lines(a) + reexport_lines(b),
        reexport_lines(seq![name]) == "pub use flatbuffers_generated::"@ + name@ + "::*;\n"@,
        reexport_lines(Seq::empty()) == Seq::<char>::empty(),
    decreases b.len(),
{
    if b.len() == 0 {
        assert(a + b =~= a);
        assert(reexport_lines(a) + reexport_lines(b) =~= reexport_lines(a));
    } else {
        law_reexport_lines(a, b.drop_last(), name);
        assert((a + b).drop_last() =~= a + b.drop_last());
        assert((a + b).last() == b.last());
        assert(reexport_lines(a + b) =~= reexport_lines(a) + reexport_lines(b));
    }
    assert(seq![name].drop_last() =~= Seq::empty());
    assert(reexport_lines(Seq::empty()) =~= Seq::<char>::empty());
    assert(reexport_lines(seq![name]) =~= "pub use flatbuffers_generated::"@ + name@ + "::*;\n"@);
}

/// The module of a schema file is the start of the file's name up to a dot or the end, and has no
/// dot in it.
pub proof fn law_before_first_dot(file_name: Seq<char>)
    ensures
        ({
            let name = before_first_dot(file_name);
            &&& name.len() <= file_name.len()
            &&& name == file_name.take(name.len() as int)
            &&& !name.contains('.')
            &&& name.len() < file_name.len() ==> file_name[name.len() as int] == '.'
        }),
    decreases file_name.len(),
{
    let name = before_first_dot(file_name);
    if file_name.len() == 0 || file_name.first() == '.' {
        assert(name =~= file_name.take(0));
    } else {
        let rest = file_name.drop_first();
        let inner = before_first_dot(rest);
        law_before_first_dot(rest);
        assert(name.len() == inner.len() + 1);
        assert forall|i: int| 0 <= i < name.len() implies #[trigger] name[i] == file_name[i]
            && name[i] != '.' by {
            if i > 0 {
                assert(name[i] == inner[i - 1]);
                assert(inner[i - 1] == rest.take(inner.len() as int)[i - 1]);
                assert(inner.contains(inner[i - 1]));
            }
        }
        assert(name =~= file_name.take(name.len() as int));
    }
}

/// The flatbuffers compiler is told the directory and the schema file as they are given: the
/// directory behind the flag for it, and the file last.
pub proof fn law_flatc_arguments(output_dir: Seq<char>, schema: Seq<char>)
    ensures
        ({
            let args = flatc_arguments(output_dir, schema);
            &&& args.len() == 9
            &&& args[0] == "-o"@ && args[1] == output_dir
            &&& args[2] == "--rust"@
            &&& args[3] == "--gen-mutable"@
            &&& args[4] == "--gen-onefile"@
            &&& args[5] == "--gen-name-strings"@
            &&& args[6] == "--filename-suffix"@ && args[7] == ""@
            &&& args[8] == schema
        }),
{
}

} // verus!
