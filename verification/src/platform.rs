//! Which packages can be installed on which machines.
//!
//! A package can name the operating systems, processors and C libraries it supports,
//! in the lists `os`, `cpu` and `libc` of its `package.json`. An entry is a value
//! (`"linux"`) or the negation of one (`"!win32"`):
//!
//! - an empty list accepts every machine;
//! - a negation of the machine's value rejects it;
//! - where there are values, one of them must be the machine's;
//! - where there are only negations, every machine that none of them hits is accepted.

use vstd::prelude::*;

verus! {

/// The machines to install for, beside or in place of the one at hand. An empty list
/// stands for the value of the machine at hand, and so does the entry `current`.
#[derive(Debug, Clone)]
pub struct SupportedArchitectures {
    pub os: Vec<String>,
    pub cpu: Vec<String>,
    pub libc: Vec<String>,
}

#[verifier::ext_equal]
pub struct SupportedView {
    pub os: Seq<Seq<char>>,
    pub cpu: Seq<Seq<char>>,
    pub libc: Seq<Seq<char>>,
}

impl View for SupportedArchitectures {
    type V = SupportedView;

    open spec fn view(&self) -> SupportedView {
        SupportedView {
            os: self.os.deep_view(),
            cpu: self.cpu.deep_view(),
            libc: self.libc.deep_view(),
        }
    }
}

/// An operating system, a processor and a C library, in npm's vocabulary.
pub type Triple = (Seq<char>, Seq<char>, Seq<char>);

/// The characters of three strings.
pub open spec fn triple_view(t: (String, String, String)) -> Triple {
    (t.0@, t.1@, t.2@)
}

/// Whether an entry is a value rather than a negation.
pub open spec fn is_positive(entry: Seq<char>) -> bool {
    !(entry.len() > 0 && entry[0] == '!')
}

/// Whether a list of values and negations accepts a value.
pub open spec fn field_accepts(field: Seq<Seq<char>>, value: Seq<char>) -> bool {
    &&& !field.contains(seq!['!'] + value)
    &&& (exists|i: int| 0 <= i < field.len() && is_positive(#[trigger] field[i])) ==> (exists|
        i: int,
    |
        0 <= i < field.len() && is_positive(#[trigger] field[i]) && field[i] == value)
}

/// A list with `current` turned into the machine's value, which also stands for the
/// empty list.
pub open spec fn expanded(field: Seq<Seq<char>>, value: Seq<char>) -> Seq<Seq<char>> {
    if field.len() == 0 {
        seq![value]
    } else {
        field.map_values(
            |entry: Seq<char>|
                if entry == "current"@ {
                    value
                } else {
                    entry
                },
        )
    }
}

/// The combinations with a given operating system and processor.
pub open spec fn libc_triples(os: Seq<char>, cpu: Seq<char>, libc: Seq<Seq<char>>) -> Seq<Triple> {
    libc.map_values(|l: Seq<char>| (os, cpu, l))
}

/// The combinations with a given operating system.
pub open spec fn cpu_triples(os: Seq<char>, cpu: Seq<Seq<char>>, libc: Seq<Seq<char>>) -> Seq<
    Triple,
>
    decreases cpu.len(),
{
    if cpu.len() == 0 {
        seq![]
    } else {
        cpu_triples(os, cpu.drop_last(), libc) + libc_triples(os, cpu.last(), libc)
    }
}

/// All combinations, ordered by operating system, then processor, then C library.
pub open spec fn all_triples(
    os: Seq<Seq<char>>,
    cpu: Seq<Seq<char>>,
    libc: Seq<Seq<char>>,
) -> Seq<Triple>
    decreases os.len(),
{
    if os.len() == 0 {
        seq![]
    } else {
        all_triples(os.drop_last(), cpu, libc) + cpu_triples(os.last(), cpu, libc)
    }
}

/// The combinations that some supported architectures stand for on a machine.
pub open spec fn combinations_of(supported: SupportedView, host: Triple) -> Seq<Triple> {
    all_triples(
        expanded(supported.os, host.0),
        expanded(supported.cpu, host.1),
        expanded(supported.libc, host.2),
    )
}

/// Whether a package can be installed on one machine. The C library counts only where
/// the machine has one.
pub open spec fn installable(
    os: Seq<Seq<char>>,
    cpu: Seq<Seq<char>>,
    libc: Seq<Seq<char>>,
    machine: Triple,
) -> bool {
    &&& field_accepts(os, machine.0)
    &&& field_accepts(cpu, machine.1)
    &&& machine.2.len() > 0 ==> field_accepts(libc, machine.2)
}

/// Whether a package can be installed on one of the machines that some supported
/// architectures stand for.
pub open spec fn supports(
    os: Seq<Seq<char>>,
    cpu: Seq<Seq<char>>,
    libc: Seq<Seq<char>>,
    supported: SupportedView,
    host: Triple,
) -> bool {
    exists|machine: Triple|
        {
            &&& expanded(supported.os, host.0).contains(machine.0)
            &&& expanded(supported.cpu, host.1).contains(machine.1)
            &&& expanded(supported.libc, host.2).contains(machine.2)
            &&& #[trigger] installable(os, cpu, libc, machine)
        }
}

/// npm's name for an operating system.
pub open spec fn os_name(os: Seq<char>) -> Seq<char> {
    if os == "macos"@ {
        "darwin"@
    } else if os == "windows"@ {
        "win32"@
    } else {
        os
    }
}

/// npm's name for a processor.
pub open spec fn cpu_name(arch: Seq<char>) -> Seq<char> {
    if arch == "x86_64"@ {
        "x64"@
    } else if arch == "x86"@ {
        "ia32"@
    } else if arch == "aarch64"@ {
        "arm64"@
    } else if arch == "powerpc64"@ {
        "ppc64"@
    } else {
        arch
    }
}

/// The C library of a machine; only Linux has one that counts.
pub open spec fn libc_name(os: Seq<char>, musl: bool) -> Seq<char> {
    if os == "linux"@ {
        if musl {
            "musl"@
        } else {
            "glibc"@
        }
    } else {
        ""@
    }
}

impl Default for SupportedArchitectures {
    /// The machine at hand alone.
    fn default() -> (r: Self)
        ensures
            r@ == (SupportedView { os: seq![], cpu: seq![], libc: seq![] }),
    {
        let r = SupportedArchitectures { os: Vec::new(), cpu: Vec::new(), libc: Vec::new() };
        assert(r@ =~= SupportedView { os: seq![], cpu: seq![], libc: seq![] });
        r
    }
}

/// A list with `current` and emptiness turned into the machine's value.
fn expand(field: &Vec<String>, value: &str) -> (r: Vec<String>)
    ensures
        r.deep_view() == expanded(field.deep_view(), value@),
{
    let mut out: Vec<String> = Vec::new();
    if field.len() == 0 {
        out.push(value.to_string());
        assert(out.deep_view() =~= seq![value@]);
        return out;
    }
    let current = "current".to_string();
    let mut i: usize = 0;
    while i < field.len()
        invariant
            i <= field@.len(),
            field@.len() > 0,
            current@ == "current"@,
            out.deep_view() == expanded(field.deep_view(), value@).take(i as int),
        decreases field.len() - i,
    {
        let ghost want = expanded(field.deep_view(), value@);
        let ghost before = out.deep_view();
        if field[i] == current {
            out.push(value.to_string());
        } else {
            out.push(field[i].clone());
        }
        assert(out.deep_view() =~= before.push(want[i as int]));
        assert(want.take(i + 1) =~= want.take(i as int).push(want[i as int]));
        i += 1;
    }
    assert(expanded(field.deep_view(), value@).take(field@.len() as int) =~= expanded(
        field.deep_view(),
        value@,
    ));
    out
}

/// The views of a list of triples.
pub open spec fn triples_view(v: Seq<(String, String, String)>) -> Seq<Triple> {
    v.map_values(|t: (String, String, String)| triple_view(t))
}

impl SupportedArchitectures {
    /// Every combination of operating system, processor and C library to install for.
    /// `host` is the machine at hand.
    pub fn combinations(&self, host: &(String, String, String)) -> (r: Vec<
        (String, String, String),
    >)
        ensures
            triples_view(r@) == combinations_of(self@, triple_view(*host)),
    {
        let os = expand(&self.os, host.0.as_str());
        let cpu = expand(&self.cpu, host.1.as_str());
        let libc = expand(&self.libc, host.2.as_str());
        let ghost vos = os.deep_view();
        let ghost vcpu = cpu.deep_view();
        let ghost vlibc = libc.deep_view();
        let mut out: Vec<(String, String, String)> = Vec::new();
        assert(triples_view(out@) =~= seq![]);
        let mut i: usize = 0;
        while i < os.len()
            invariant
                i <= os@.len(),
                vos == os.deep_view(),
                vcpu == cpu.deep_view(),
                vlibc == libc.deep_view(),
                triples_view(out@) == all_triples(vos.take(i as int), vcpu, vlibc),
            decreases os.len() - i,
        {
            let ghost done = triples_view(out@);
            let mut j: usize = 0;
            assert(triples_view(out@) =~= done + cpu_triples(vos[i as int], vcpu.take(0), vlibc));
            while j < cpu.len()
                invariant
                    i < os@.len(),
                    j <= cpu@.len(),
                    vos == os.deep_view(),
                    vcpu == cpu.deep_view(),
                    vlibc == libc.deep_view(),
                    triples_view(out@) == done + cpu_triples(
                        vos[i as int],
                        vcpu.take(j as int),
                        vlibc,
                    ),
                decreases cpu.len() - j,
            {
                let ghost inner = triples_view(out@);
                let ghost block = libc_triples(vos[i as int], vcpu[j as int], vlibc);
                let mut k: usize = 0;
                assert(triples_view(out@) =~= inner + block.take(0));
                while k < libc.len()
                    invariant
                        i < os@.len(),
                        j < cpu@.len(),
                        k <= libc@.len(),
                        vos == os.deep_view(),
                        vcpu == cpu.deep_view(),
                        vlibc == libc.deep_view(),
                        block == libc_triples(vos[i as int], vcpu[j as int], vlibc),
                        triples_view(out@) == inner + block.take(k as int),
                    decreases libc.len() - k,
                {
                    let ghost before = triples_view(out@);
                    out.push((os[i].clone(), cpu[j].clone(), libc[k].clone()));
                    assert(triples_view(out@) =~= before.push(block[k as int]));
                    assert(block.take(k + 1) =~= block.take(k as int).push(block[k as int]));
                    assert(triples_view(out@) =~= inner + block.take(k + 1));
                    k += 1;
                }
                assert(block.take(libc@.len() as int) =~= block);
                assert(vcpu.take(j + 1).drop_last() =~= vcpu.take(j as int));
                assert(triples_view(out@) =~= done + cpu_triples(
                    vos[i as int],
                    vcpu.take(j + 1),
                    vlibc,
                ));
                j += 1;
            }
            assert(vcpu.take(cpu@.len() as int) =~= vcpu);
            assert(vos.take(i + 1).drop_last() =~= vos.take(i as int));
            i += 1;
        }
        assert(vos.take(os@.len() as int) =~= vos);
        out
    }
}

/// The machine's operating system, processor and C library in npm's vocabulary, from
/// the names that Rust has for them. `musl` says whether musl is its C library.
pub fn host_triple(os: &str, arch: &str, musl: bool) -> (r: (String, String, String))
    ensures
        triple_view(r) == (os_name(os@), cpu_name(arch@), libc_name(os@, musl)),
{
    let os = os.to_string();
    let arch = arch.to_string();
    let libc = if os == "linux".to_string() {
        if musl {
            "musl".to_string()
        } else {
            "glibc".to_string()
        }
    } else {
        "".to_string()
    };
    let os_result = if os == "macos".to_string() {
        "darwin".to_string()
    } else if os == "windows".to_string() {
        "win32".to_string()
    } else {
        os
    };
    let cpu_result = if arch == "x86_64".to_string() {
        "x64".to_string()
    } else if arch == "x86".to_string() {
        "ia32".to_string()
    } else if arch == "aarch64".to_string() {
        "arm64".to_string()
    } else if arch == "powerpc64".to_string() {
        "ppc64".to_string()
    } else {
        arch
    };
    (os_result, cpu_result, libc)
}

/// Whether a list of values and negations accepts a value.
pub fn field_matches(field: &[String], value: &str) -> (r: bool)
    ensures
        r == field_accepts(field.deep_view(), value@),
{
    let ghost f = field.deep_view();
    let wanted = value.to_string();
    let mut negated = String::new();
    negated.push('!');
    negated.append(value);
    assert(negated@ =~= seq!['!'] + value@);
    let mut has_positive: bool = false;
    let mut matched: bool = false;
    let mut i: usize = 0;
    while i < field.len()
        invariant
            i <= field@.len(),
            f == field.deep_view(),
            wanted@ == value@,
            negated@ == seq!['!'] + value@,
            forall|j: int| 0 <= j < i ==> #[trigger] f[j] != negated@,
            has_positive <==> exists|j: int| 0 <= j < i && is_positive(#[trigger] f[j]),
            matched <==> exists|j: int|
                0 <= j < i && is_positive(#[trigger] f[j]) && f[j] == value@,
        decreases field.len() - i,
    {
        assert(f[i as int] == field[i as int]@);
        if !field[i].as_str().is_empty() && field[i].as_str().get_char(0) == '!' {
            if field[i] == negated {
                assert(f.contains(f[i as int]));
                return false;
            }
        } else {
            assert(is_positive(f[i as int]));
            assert(f[i as int] != negated@) by {
                assert(negated@[0] == '!');
            }
            has_positive = true;
            if field[i] == wanted {
                matched = true;
            }
        }
        i += 1;
    }
    !has_positive || matched
}

proof fn lemma_cpu_triples(
    os: Seq<char>,
    cpu: Seq<Seq<char>>,
    libc: Seq<Seq<char>>,
    machine: Triple,
)
    ensures
        cpu_triples(os, cpu, libc).contains(machine) <==> machine.0 == os && cpu.contains(machine.1)
            && libc.contains(machine.2),
    decreases cpu.len(),
{
    if cpu.len() > 0 {
        let init = cpu.drop_last();
        let a = cpu_triples(os, init, libc);
        let b = libc_triples(os, cpu.last(), libc);
        lemma_cpu_triples(os, init, libc, machine);
        lemma_contains_add(a, b, machine);
        assert(cpu =~= init + seq![cpu.last()]);
        lemma_contains_add(init, seq![cpu.last()], machine.1);
        assert(seq![cpu.last()].contains(machine.1) <==> machine.1 == cpu.last()) by {
            assert(seq![cpu.last()][0] == cpu.last());
        }
        if b.contains(machine) {
            let k = choose|k: int| 0 <= k < b.len() && b[k] == machine;
            assert(libc[k] == machine.2);
        }
        if machine.0 == os && machine.1 == cpu.last() && libc.contains(machine.2) {
            let k = choose|k: int| 0 <= k < libc.len() && libc[k] == machine.2;
            assert(b[k] == machine);
        }
    }
}

proof fn lemma_contains_add<A>(a: Seq<A>, b: Seq<A>, x: A)
    ensures
        (a + b).contains(x) <==> a.contains(x) || b.contains(x),
{
    if a.contains(x) {
        let k = choose|k: int| 0 <= k < a.len() && a[k] == x;
        assert((a + b)[k] == x);
    }
    if b.contains(x) {
        let k = choose|k: int| 0 <= k < b.len() && b[k] == x;
        assert((a + b)[a.len() + k] == x);
    }
    if (a + b).contains(x) {
        let k = choose|k: int| 0 <= k < (a + b).len() && (a + b)[k] == x;
        if k < a.len() {
            assert(a[k] == x);
        } else {
            assert(b[k - a.len()] == x);
        }
    }
}

proof fn lemma_all_triples(
    os: Seq<Seq<char>>,
    cpu: Seq<Seq<char>>,
    libc: Seq<Seq<char>>,
    machine: Triple,
)
    ensures
        all_triples(os, cpu, libc).contains(machine) <==> os.contains(machine.0) && cpu.contains(
            machine.1,
        ) && libc.contains(machine.2),
    decreases os.len(),
{
    if os.len() > 0 {
        let init = os.drop_last();
        lemma_all_triples(init, cpu, libc, machine);
        lemma_cpu_triples(os.last(), cpu, libc, machine);
        lemma_contains_add(
            all_triples(init, cpu, libc),
            cpu_triples(os.last(), cpu, libc),
            machine,
        );
        assert(os =~= init + seq![os.last()]);
        lemma_contains_add(init, seq![os.last()], machine.0);
        assert(seq![os.last()].contains(machine.0) <==> machine.0 == os.last()) by {
            assert(seq![os.last()][0] == os.last());
        }
    }
}

/// The combinations are the machines whose three parts are all supported.
pub proof fn law_combinations(supported: SupportedView, host: Triple, machine: Triple)
    ensures
        combinations_of(supported, host).contains(machine) <==> {
            &&& expanded(supported.os, host.0).contains(machine.0)
            &&& expanded(supported.cpu, host.1).contains(machine.1)
            &&& expanded(supported.libc, host.2).contains(machine.2)
        },
{
    lemma_all_triples(
        expanded(supported.os, host.0),
        expanded(supported.cpu, host.1),
        expanded(supported.libc, host.2),
        machine,
    );
}

/// Whether a package that supports the listed operating systems, processors and C
/// libraries can be installed on one of the machines to install for. `host` is the
/// machine at hand.
pub fn is_supported(
    pkg_os: &[String],
    pkg_cpu: &[String],
    pkg_libc: &[String],
    supported: &SupportedArchitectures,
    host: &(String, String, String),
) -> (r: bool)
    ensures
        r == supports(
            pkg_os.deep_view(),
            pkg_cpu.deep_view(),
            pkg_libc.deep_view(),
            supported@,
            triple_view(*host),
        ),
{
    let machines = supported.combinations(host);
    let ghost all = combinations_of(supported@, triple_view(*host));
    let ghost (o, c, l) = (pkg_os.deep_view(), pkg_cpu.deep_view(), pkg_libc.deep_view());
    let mut i: usize = 0;
    while i < machines.len()
        invariant
            i <= machines@.len(),
            all == combinations_of(supported@, triple_view(*host)),
            all == triples_view(machines@),
            o == pkg_os.deep_view(),
            c == pkg_cpu.deep_view(),
            l == pkg_libc.deep_view(),
            forall|j: int| 0 <= j < i ==> !installable(o, c, l, #[trigger] all[j]),
        decreases machines.len() - i,
    {
        let m = &machines[i];
        assert(all[i as int] == triple_view(*m));
        if field_matches(pkg_os, m.0.as_str()) && field_matches(pkg_cpu, m.1.as_str()) && (
        m.2.as_str().is_empty() || field_matches(pkg_libc, m.2.as_str())) {
            proof {
                law_combinations(supported@, triple_view(*host), all[i as int]);
                assert(installable(o, c, l, all[i as int]));
            }
            return true;
        }
        i += 1;
    }
    proof {
        assert forall|machine: Triple|
            {
                &&& expanded(supported@.os, triple_view(*host).0).contains(machine.0)
                &&& expanded(supported@.cpu, triple_view(*host).1).contains(machine.1)
                &&& expanded(supported@.libc, triple_view(*host).2).contains(machine.2)
            } implies !#[trigger] installable(o, c, l, machine) by {
            law_combinations(supported@, triple_view(*host), machine);
            let j = choose|j: int| 0 <= j < all.len() && all[j] == machine;
            assert(!installable(o, c, l, all[j]));
        }
    }
    false
}

/// An empty list accepts every machine.
pub proof fn law_empty_field_accepts(value: Seq<char>)
    ensures
        field_accepts(seq![], value),
{
}

/// A negation of the machine's value rejects it, whatever else is listed.
pub proof fn law_negation_rejects(field: Seq<Seq<char>>, value: Seq<char>)
    requires
        field.contains(seq!['!'] + value),
    ensures
        !field_accepts(field, value),
{
}

/// Where values are listed, only the listed values are accepted.
pub proof fn law_positive_entries_decide(field: Seq<Seq<char>>, value: Seq<char>)
    requires
        exists|i: int| 0 <= i < field.len() && is_positive(#[trigger] field[i]),
        !field.contains(seq!['!'] + value),
        is_positive(value),
    ensures
        field_accepts(field, value) <==> field.contains(value),
{
    if field.contains(value) {
        let i = choose|i: int| 0 <= i < field.len() && field[i] == value;
        assert(is_positive(field[i]));
    }
}

/// Where only negations are listed, every value that none of them hits is accepted.
pub proof fn law_negations_only(field: Seq<Seq<char>>, value: Seq<char>)
    requires
        forall|i: int| 0 <= i < field.len() ==> !is_positive(#[trigger] field[i]),
    ensures
        field_accepts(field, value) <==> !field.contains(seq!['!'] + value),
{
}

/// A machine without a C library is not held to a package's `libc` list.
pub proof fn law_libc_needs_a_library(
    os: Seq<Seq<char>>,
    cpu: Seq<Seq<char>>,
    libc: Seq<Seq<char>>,
    machine: Triple,
)
    requires
        machine.2.len() == 0,
    ensures
        installable(os, cpu, libc, machine) <==> installable(os, cpu, seq![], machine),
{
}

/// Whether every machine that `narrow` stands for is one that `wide` stands for.
pub open spec fn covers(wide: SupportedView, narrow: SupportedView, host: Triple) -> bool {
    &&& forall|v: Seq<char>|
        expanded(narrow.os, host.0).contains(v) ==> #[trigger] expanded(wide.os, host.0).contains(v)
    &&& forall|v: Seq<char>|
        expanded(narrow.cpu, host.1).contains(v) ==> #[trigger] expanded(
            wide.cpu,
            host.1,
        ).contains(v)
    &&& forall|v: Seq<char>|
        expanded(narrow.libc, host.2).contains(v) ==> #[trigger] expanded(
            wide.libc,
            host.2,
        ).contains(v)
}

/// Installing for more machines rejects no package that was accepted.
pub proof fn law_widening_accepts_more(
    os: Seq<Seq<char>>,
    cpu: Seq<Seq<char>>,
    libc: Seq<Seq<char>>,
    wide: SupportedView,
    narrow: SupportedView,
    host: Triple,
)
    requires
        covers(wide, narrow, host),
        supports(os, cpu, libc, narrow, host),
    ensures
        supports(os, cpu, libc, wide, host),
{
    let machine = choose|machine: Triple|
        {
            &&& expanded(narrow.os, host.0).contains(machine.0)
            &&& expanded(narrow.cpu, host.1).contains(machine.1)
            &&& expanded(narrow.libc, host.2).contains(machine.2)
            &&& #[trigger] installable(os, cpu, libc, machine)
        };
    assert(expanded(wide.os, host.0).contains(machine.0));
    assert(expanded(wide.cpu, host.1).contains(machine.1));
    assert(expanded(wide.libc, host.2).contains(machine.2));
}

/// Lists that are empty or hold `current` keep the machine at hand among the machines
/// to install for.
pub proof fn law_current_keeps_the_host(supported: SupportedView, host: Triple)
    requires
        supported.os.len() == 0 || supported.os.contains("current"@),
        supported.cpu.len() == 0 || supported.cpu.contains("current"@),
        supported.libc.len() == 0 || supported.libc.contains("current"@),
    ensures
        covers(supported, SupportedView { os: seq![], cpu: seq![], libc: seq![] }, host),
        combinations_of(supported, host).contains(host),
{
    lemma_current(supported.os, host.0);
    lemma_current(supported.cpu, host.1);
    lemma_current(supported.libc, host.2);
    law_combinations(supported, host, host);
    assert forall|v: Seq<char>, h: Seq<char>| #[trigger] expanded(seq![], h).contains(v) implies v
        == h by {}
}

proof fn lemma_current(field: Seq<Seq<char>>, value: Seq<char>)
    requires
        field.len() == 0 || field.contains("current"@),
    ensures
        expanded(field, value).contains(value),
{
    if field.len() == 0 {
        assert(expanded(field, value)[0] == value);
    } else {
        let i = choose|i: int| 0 <= i < field.len() && field[i] == "current"@;
        assert(expanded(field, value)[i] == value);
    }
}

/// There is always a machine to install for.
pub proof fn law_combinations_not_empty(supported: SupportedView, host: Triple)
    ensures
        combinations_of(supported, host).len() > 0,
{
    let machine = (
        expanded(supported.os, host.0)[0],
        expanded(supported.cpu, host.1)[0],
        expanded(supported.libc, host.2)[0],
    );
    law_combinations(supported, host, machine);
}

/// A list accepts a value exactly if it does not negate it and either holds nothing but
/// negations or holds the value itself.
pub proof fn law_list_accepts(field: Seq<Seq<char>>, value: Seq<char>)
    ensures
        field_accepts(field, value) <==> {
            &&& forall|i: int| 0 <= i < field.len() ==> #[trigger] field[i] != seq!['!'] + value
            &&& (forall|i: int|
                0 <= i < field.len() ==> (#[trigger] field[i]).len() > 0 && field[i][0] == '!') || (
            exists|i: int|
                0 <= i < field.len() && #[trigger] field[i] == value && !(value.len() > 0
                    && value[0] == '!'))
        },
{
    if field.contains(seq!['!'] + value) {
        let i = choose|i: int| 0 <= i < field.len() && field[i] == seq!['!'] + value;
        assert(field[i] == seq!['!'] + value);
    }
    assert forall|i: int| 0 <= i < field.len() && !field.contains(
        seq!['!'] + value,
    ) implies #[trigger] field[i] != seq!['!'] + value by {
        assert(field.contains(field[i]));
    }
}

/// A package cannot be installed on a machine that one of its lists rejects, whatever the
/// other lists say. The C library counts where the machine has one. Where no list rejects
/// the machine the package can be installed.
pub proof fn law_every_list_counts(
    os: Seq<Seq<char>>,
    cpu: Seq<Seq<char>>,
    libc: Seq<Seq<char>>,
    machine: Triple,
)
    ensures
        !field_accepts(os, machine.0) ==> !installable(os, cpu, libc, machine),
        !field_accepts(cpu, machine.1) ==> !installable(os, cpu, libc, machine),
        machine.2.len() > 0 && !field_accepts(libc, machine.2) ==> !installable(
            os,
            cpu,
            libc,
            machine,
        ),
        field_accepts(os, machine.0) && field_accepts(cpu, machine.1) && (machine.2.len() == 0
            || field_accepts(libc, machine.2)) ==> installable(os, cpu, libc, machine),
{
}

/// A list of machines' values stands for a value exactly if it is empty and the value is
/// that of the machine at hand, or if it holds the value, or `current` in its place.
pub proof fn law_list_stands_for(field: Seq<Seq<char>>, current: Seq<char>, value: Seq<char>)
    ensures
        expanded(field, current).contains(value) <==> {
            ||| field.len() == 0 && value == current
            ||| exists|i: int|
                0 <= i < field.len() && #[trigger] field[i] == value && value != "current"@
            ||| value == current && exists|i: int|
                0 <= i < field.len() && #[trigger] field[i] == "current"@
        },
{
    let all = expanded(field, current);
    if field.len() == 0 {
        assert(all[0] == current);
    } else {
        if all.contains(value) {
            let i = choose|i: int| 0 <= i < all.len() && all[i] == value;
            assert(field[i] == "current"@ || field[i] == value);
        }
        if exists|i: int|
            0 <= i < field.len() && #[trigger] field[i] == value && value != "current"@ {
            let i = choose|i: int|
                0 <= i < field.len() && #[trigger] field[i] == value && value != "current"@;
            assert(all[i] == value);
        }
        if value == current && exists|i: int|
            0 <= i < field.len() && #[trigger] field[i] == "current"@ {
            let i = choose|i: int| 0 <= i < field.len() && #[trigger] field[i] == "current"@;
            assert(all[i] == value);
        }
    }
}

/// A package is supported if it can be installed on one machine whose parts are all stood
/// for.
pub proof fn law_one_machine_is_enough(
    os: Seq<Seq<char>>,
    cpu: Seq<Seq<char>>,
    libc: Seq<Seq<char>>,
    supported: SupportedView,
    host: Triple,
    machine: Triple,
)
    requires
        expanded(supported.os, host.0).contains(machine.0),
        expanded(supported.cpu, host.1).contains(machine.1),
        expanded(supported.libc, host.2).contains(machine.2),
        field_accepts(os, machine.0),
        field_accepts(cpu, machine.1),
        machine.2.len() == 0 || field_accepts(libc, machine.2),
    ensures
        supports(os, cpu, libc, supported, host),
{
    assert(installable(os, cpu, libc, machine));
}

/// A package is not supported if one of its lists rejects every value that is stood for.
pub proof fn law_one_list_can_reject(
    os: Seq<Seq<char>>,
    cpu: Seq<Seq<char>>,
    libc: Seq<Seq<char>>,
    supported: SupportedView,
    host: Triple,
)
    requires
        ({
            ||| forall|v: Seq<char>| #[trigger]
                expanded(supported.os, host.0).contains(v) ==> !field_accepts(os, v)
            ||| forall|v: Seq<char>| #[trigger]
                expanded(supported.cpu, host.1).contains(v) ==> !field_accepts(cpu, v)
            ||| forall|v: Seq<char>| #[trigger]
                expanded(supported.libc, host.2).contains(v) ==> v.len() > 0 && !field_accepts(
                    libc,
                    v,
                )
        }),
    ensures
        !supports(os, cpu, libc, supported, host),
{
}

/// For the machine at hand alone, a package is supported exactly if none of its lists
/// rejects that machine.
pub proof fn law_default_is_the_host(
    os: Seq<Seq<char>>,
    cpu: Seq<Seq<char>>,
    libc: Seq<Seq<char>>,
    host: Triple,
)
    ensures
        supports(os, cpu, libc, SupportedView { os: seq![], cpu: seq![], libc: seq![] }, host)
            <==> field_accepts(os, host.0) && field_accepts(cpu, host.1) && (host.2.len() == 0
            || field_accepts(libc, host.2)),
{
    let none = SupportedView { os: seq![], cpu: seq![], libc: seq![] };
    assert forall|v: Seq<char>, h: Seq<char>| #[trigger] expanded(seq![], h).contains(v) implies v
        == h by {}
    assert(expanded(none.os, host.0)[0] == host.0);
    assert(expanded(none.cpu, host.1)[0] == host.1);
    assert(expanded(none.libc, host.2)[0] == host.2);
    if field_accepts(os, host.0) && field_accepts(cpu, host.1) && (host.2.len() == 0
        || field_accepts(libc, host.2)) {
        assert(installable(os, cpu, libc, host));
    }
}

/// Names that npm does not spell differently are kept, and only Linux has a C library.
pub proof fn law_other_names_are_kept(os: Seq<char>, arch: Seq<char>, musl: bool)
    ensures
        os != "macos"@ && os != "windows"@ ==> os_name(os) == os,
        arch != "x86_64"@ && arch != "x86"@ && arch != "aarch64"@ && arch != "powerpc64"@
            ==> cpu_name(arch) == arch,
        os != "linux"@ ==> libc_name(os, musl).len() == 0,
        os == "linux"@ ==> libc_name(os, true) != libc_name(os, false) && libc_name(os, musl).len()
            > 0,
{
    reveal_strlit("");
    reveal_strlit("musl");
    reveal_strlit("glibc");
    assert("musl"@.len() != "glibc"@.len());
}

/// npm spells two operating systems and four processors its own way, and tells the two C
/// libraries of Linux apart.
pub proof fn law_names_of_npm(os: Seq<char>, arch: Seq<char>, musl: bool)
    ensures
        os == "macos"@ ==> os_name(os) == "darwin"@,
        os == "windows"@ ==> os_name(os) == "win32"@,
        arch == "x86_64"@ ==> cpu_name(arch) == "x64"@,
        arch == "x86"@ ==> cpu_name(arch) == "ia32"@,
        arch == "aarch64"@ ==> cpu_name(arch) == "arm64"@,
        arch == "powerpc64"@ ==> cpu_name(arch) == "ppc64"@,
        os == "linux"@ ==> libc_name(os, musl) == if musl {
            "musl"@
        } else {
            "glibc"@
        },
{
    reveal_strlit("macos");
    reveal_strlit("windows");
    reveal_strlit("x86_64");
    reveal_strlit("x86");
    reveal_strlit("aarch64");
    reveal_strlit("powerpc64");
    assert("macos"@.len() == 5 && "windows"@.len() == 7);
    assert("x86_64"@.len() == 6 && "x86"@.len() == 3);
    assert("aarch64"@.len() == 7 && "powerpc64"@.len() == 9);
}

} // verus!
