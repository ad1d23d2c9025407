//! The human-readable rendering of a finished analysis: components grouped
//! by file with dependency and dependent counts, the key insights, and a
//! truncated processing-order listing. The exact text is pinned, so the
//! rendering is a contract surface: callers can rely on it byte for byte.

use vstd::prelude::*;

use crate::component::{ComponentModel, ComponentType, Visibility};
use crate::graph::{find_component, find_id};
use crate::insights::distinct_files;
use crate::mapper::{MapperModel, RepositoryMapper};

verus! {

/// The decimal digit characters.
pub open spec fn digit_char(d: int) -> char {
    if d == 0 {
        '0'
    } else if d == 1 {
        '1'
    } else if d == 2 {
        '2'
    } else if d == 3 {
        '3'
    } else if d == 4 {
        '4'
    } else if d == 5 {
        '5'
    } else if d == 6 {
        '6'
    } else if d == 7 {
        '7'
    } else if d == 8 {
        '8'
    } else {
        '9'
    }
}

/// The decimal rendering of a non-negative number, most significant digit
/// first.
pub open spec fn dec_digits(n: int) -> Seq<char>
    decreases n,
{
    if n < 10 {
        seq![digit_char(n)]
    } else {
        dec_digits(n / 10).push(digit_char(n % 10))
    }
}

/// One decimal digit as text.
fn digit_str(d: usize) -> (r: &'static str)
    requires
        d < 10,
    ensures
        r@ == seq![digit_char(d as int)],
{
    proof {
        reveal_strlit("0");
        reveal_strlit("1");
        reveal_strlit("2");
        reveal_strlit("3");
        reveal_strlit("4");
        reveal_strlit("5");
        reveal_strlit("6");
        reveal_strlit("7");
        reveal_strlit("8");
        reveal_strlit("9");
    }
    let r = if d == 0 {
        "0"
    } else if d == 1 {
        "1"
    } else if d == 2 {
        "2"
    } else if d == 3 {
        "3"
    } else if d == 4 {
        "4"
    } else if d == 5 {
        "5"
    } else if d == 6 {
        "6"
    } else if d == 7 {
        "7"
    } else if d == 8 {
        "8"
    } else {
        "9"
    };
    proof {
        assert(r@ =~= seq![digit_char(d as int)]);
    }
    r
}

/// Renders a number in decimal.
pub fn render_usize(n: usize) -> (r: String)
    ensures
        r@ == dec_digits(n as int),
    decreases n,
{
    if n < 10 {
        let mut s = String::new();
        s.append(digit_str(n));
        proof {
            assert(s@ =~= dec_digits(n as int));
        }
        s
    } else {
        let mut s = render_usize(n / 10);
        s.append(digit_str(n % 10));
        proof {
            assert(s@ =~= dec_digits(n as int));
        }
        s
    }
}

/// The mark a component kind is listed under.
pub open spec fn spec_type_mark(t: ComponentType) -> Seq<char> {
    match t {
        ComponentType::Function => "fn"@,
        ComponentType::Method => "fn"@,
        ComponentType::Class => "struct"@,
        ComponentType::Module => "mod"@,
        ComponentType::Interface => "trait"@,
    }
}

/// The mark a visibility is listed under.
pub open spec fn spec_vis_mark(v: Visibility) -> Seq<char> {
    match v {
        Visibility::Public => "pub "@,
        _ => Seq::empty(),
    }
}

/// One component's line in its file group.
pub open spec fn spec_component_line(c: ComponentModel) -> Seq<char> {
    "  "@ + spec_vis_mark(c.visibility) + spec_type_mark(c.component_type) + " "@ + c.name
        + " (deps: "@ + dec_digits(c.dependencies.len() as int) + ", used by: "@ + dec_digits(
        c.dependents.len() as int,
    ) + ")\n"@
}

/// The lines of every component of the given file among the first `upto`.
pub open spec fn spec_file_lines(comps: Seq<ComponentModel>, f: Seq<char>, upto: int) -> Seq<char>
    decreases upto,
{
    if upto <= 0 {
        Seq::empty()
    } else {
        spec_file_lines(comps, f, upto - 1) + if comps[upto - 1].file_path == f {
            spec_component_line(comps[upto - 1])
        } else {
            Seq::empty()
        }
    }
}

/// The sections of the first `upto` files.
pub open spec fn spec_file_sections(
    comps: Seq<ComponentModel>,
    files: Seq<Seq<char>>,
    upto: int,
) -> Seq<char>
    decreases upto,
{
    if upto <= 0 {
        Seq::empty()
    } else {
        spec_file_sections(comps, files, upto - 1) + files[upto - 1] + "\n"@ + spec_file_lines(
            comps,
            files[upto - 1],
            comps.len() as int,
        ) + "\n"@
    }
}

/// The entry-point lines for the first `upto` listed ids; an id with no
/// component is skipped.
pub open spec fn spec_entry_lines(
    comps: Seq<ComponentModel>,
    ids: Seq<Seq<char>>,
    upto: int,
) -> Seq<char>
    decreases upto,
{
    if upto <= 0 {
        Seq::empty()
    } else {
        spec_entry_lines(comps, ids, upto - 1) + match find_id(comps, ids[upto - 1]) {
            Some(j) => "  "@ + comps[j].name + " ("@ + comps[j].file_path + ")\n"@,
            None => Seq::empty(),
        }
    }
}

/// The numbered lines of the first `upto` most connected ids.
pub open spec fn spec_connected_lines(
    comps: Seq<ComponentModel>,
    ids: Seq<Seq<char>>,
    upto: int,
) -> Seq<char>
    decreases upto,
{
    if upto <= 0 {
        Seq::empty()
    } else {
        spec_connected_lines(comps, ids, upto - 1) + match find_id(comps, ids[upto - 1]) {
            Some(j) => "  "@ + dec_digits(upto) + ". "@ + comps[j].name + " ("@ + comps[
                j
            ].file_path + ")\n"@,
            None => Seq::empty(),
        }
    }
}

/// The numbered lines of the first `upto` entries of the processing order.
pub open spec fn spec_order_lines(
    comps: Seq<ComponentModel>,
    ids: Seq<Seq<char>>,
    upto: int,
) -> Seq<char>
    decreases upto,
{
    if upto <= 0 {
        Seq::empty()
    } else {
        spec_order_lines(comps, ids, upto - 1) + match find_id(comps, ids[upto - 1]) {
            Some(j) => "  "@ + dec_digits(upto) + ". "@ + comps[j].name + "\n"@,
            None => Seq::empty(),
        }
    }
}

/// The entry-point section, empty when there are no entry points.
pub open spec fn spec_entry_section(m: MapperModel) -> Seq<char> {
    if m.insights.entry_points.len() == 0 {
        Seq::empty()
    } else {
        "Entry Points:\n"@ + spec_entry_lines(
            m.graph.components,
            m.insights.entry_points,
            m.insights.entry_points.len() as int,
        ) + "\n"@
    }
}

/// The most-connected section: the first five of the ranking.
pub open spec fn spec_connected_section(m: MapperModel) -> Seq<char> {
    if m.insights.most_connected_components.len() == 0 {
        Seq::empty()
    } else {
        "Most Connected:\n"@ + spec_connected_lines(
            m.graph.components,
            m.insights.most_connected_components,
            if m.insights.most_connected_components.len() < 5 {
                m.insights.most_connected_components.len() as int
            } else {
                5
            },
        )
    }
}

/// The processing-order section: the first ten entries, and a suffix saying
/// how many more follow.
pub open spec fn spec_order_section(m: MapperModel) -> Seq<char> {
    "Processing Order (dependencies first):\n"@ + spec_order_lines(
        m.graph.components,
        m.topological_order,
        if m.topological_order.len() < 10 {
            m.topological_order.len() as int
        } else {
            10
        },
    ) + if m.topological_order.len() > 10 {
        "  ... and "@ + dec_digits(m.topological_order.len() - 10) + " more\n"@
    } else {
        Seq::empty()
    }
}

/// The whole map.
pub open spec fn spec_render_map(m: MapperModel) -> Seq<char> {
    "Repository Structure\n===================\n\n"@ + "Components: "@ + dec_digits(
        m.insights.total_components,
    ) + " | Entry Points: "@ + dec_digits(m.insights.entry_points.len() as int) + " | Cycles: "@
        + dec_digits(m.graph.cycles.len() as int) + "\n\n"@ + spec_file_sections(
        m.graph.components,
        distinct_files(m.graph.components, m.graph.n()),
        distinct_files(m.graph.components, m.graph.n()).len() as int,
    ) + "Key Insights\n------------\n"@ + spec_entry_section(m) + spec_connected_section(m)
        + spec_order_section(m)
}

impl RepositoryMapper {
    /// Renders the repository structure: a header with the component, entry
    /// point and cycle counts; the components grouped by file in order of
    /// first appearance, each with its dependency and dependent counts; the
    /// entry points; the five most connected components; and the first ten
    /// entries of the processing order with an `... and N more` suffix when
    /// the order is longer.
    pub fn generate_repository_map(&self) -> (r: String)
        ensures
            r@ == spec_render_map(self@),
    {
        let ghost m = self@;
        let ghost comps = self@.graph.components;
        let n = self.graph.components.len();
        let mut map = String::new();
        map.append("Repository Structure\n===================\n\n");
        map.append("Components: ");
        map.append(render_usize(self.insights.total_components).as_str());
        map.append(" | Entry Points: ");
        map.append(render_usize(self.insights.entry_points.len()).as_str());
        map.append(" | Cycles: ");
        map.append(render_usize(self.graph.cycles.len()).as_str());
        map.append("\n\n");
        let ghost header = map@;
        // components grouped by file, in order of first appearance
        let files = crate::insights::distinct_file_paths(&self.graph);
        let nf = files.len();
        let mut fi: usize = 0;
        proof {
            assert(map@ =~= header + spec_file_sections(comps, files.deep_view(), 0int));
        }
        while fi < nf
            invariant
                0 <= fi <= nf,
                nf == files.len(),
                n == self.graph.components.len(),
                comps == self@.graph.components,
                map@ == header + spec_file_sections(comps, files.deep_view(), fi as int),
            decreases nf - fi,
        {
            let ghost sec_pre = map@;
            proof {
                assert(files.deep_view()[fi as int] == files@[fi as int]@);
            }
            map.append(files[fi].as_str());
            map.append("\n");
            let ghost group_start = map@;
            let mut ci: usize = 0;
            proof {
                assert(map@ =~= group_start + spec_file_lines(
                    comps,
                    files.deep_view()[fi as int],
                    0int,
                ));
            }
            while ci < n
                invariant
                    0 <= ci <= n,
                    0 <= fi < nf,
                    nf == files.len(),
                    n == self.graph.components.len(),
                    comps == self@.graph.components,
                    map@ == group_start + spec_file_lines(
                        comps,
                        files.deep_view()[fi as int],
                        ci as int,
                    ),
                decreases n - ci,
            {
                let ghost f = files.deep_view()[fi as int];
                proof {
                    assert(comps[ci as int] == self.graph.components@[ci as int]@);
                    assert(files.deep_view()[fi as int] == files@[fi as int]@);
                }
                let c = &self.graph.components[ci];
                if crate::strid::str_eq(c.file_path.as_str(), files[fi].as_str()) {
                    let mut line = String::new();
                    line.append("  ");
                    match c.visibility {
                        Visibility::Public => line.append("pub "),
                        _ => (),
                    }
                    proof {
                        assert(line@ =~= "  "@ + spec_vis_mark(c.visibility));
                    }
                    match c.component_type {
                        ComponentType::Function => line.append("fn"),
                        ComponentType::Method => line.append("fn"),
                        ComponentType::Class => line.append("struct"),
                        ComponentType::Module => line.append("mod"),
                        ComponentType::Interface => line.append("trait"),
                    }
                    proof {
                        assert(line@ =~= "  "@ + spec_vis_mark(c.visibility) + spec_type_mark(
                            c.component_type,
                        ));
                    }
                    line.append(" ");
                    line.append(c.name.as_str());
                    line.append(" (deps: ");
                    line.append(render_usize(c.dependencies.len()).as_str());
                    line.append(", used by: ");
                    line.append(render_usize(c.dependents.len()).as_str());
                    line.append(")\n");
                    proof {
                        assert(line@ =~= spec_component_line(comps[ci as int]));
                    }
                    map.append(line.as_str());
                    proof {
                        assert(map@ =~= group_start + spec_file_lines(comps, f, ci as int + 1));
                    }
                } else {
                    proof {
                        assert(map@ =~= group_start + spec_file_lines(comps, f, ci as int + 1));
                    }
                }
                ci = ci + 1;
            }
            map.append("\n");
            proof {
                assert(map@ =~= header + spec_file_sections(
                    comps,
                    files.deep_view(),
                    fi as int + 1,
                ));
            }
            fi = fi + 1;
        }
        proof {
            assert(files.deep_view().len() == distinct_files(comps, m.graph.n()).len());
        }
        map.append("Key Insights\n------------\n");
        let ghost before_entries = map@;
        // entry points
        let ne = self.insights.entry_points.len();
        if ne > 0 {
            map.append("Entry Points:\n");
            let ghost entry_start = map@;
            let mut k: usize = 0;
            proof {
                assert(map@ =~= entry_start + spec_entry_lines(
                    comps,
                    m.insights.entry_points,
                    0int,
                ));
            }
            while k < ne
                invariant
                    0 <= k <= ne,
                    ne == self.insights.entry_points.len(),
                    comps == self@.graph.components,
                    m.insights.entry_points == self@.insights.entry_points,
                    map@ == entry_start + spec_entry_lines(
                        comps,
                        m.insights.entry_points,
                        k as int,
                    ),
                decreases ne - k,
            {
                proof {
                    assert(m.insights.entry_points[k as int] == self.insights.entry_points@[
                        k as int]@);
                }
                match find_component(&self.graph.components, self.insights.entry_points[k].as_str())
                    {
                    Some(j) => {
                        proof {
                            crate::graph::lemma_find_id_props(
                                comps,
                                m.insights.entry_points[k as int],
                            );
                            assert(comps[j as int] == self.graph.components@[j as int]@);
                        }
                        map.append("  ");
                        map.append(self.graph.components[j].name.as_str());
                        map.append(" (");
                        map.append(self.graph.components[j].file_path.as_str());
                        map.append(")\n");
                        proof {
                            assert(map@ =~= entry_start + spec_entry_lines(
                                comps,
                                m.insights.entry_points,
                                k as int + 1,
                            ));
                        }
                    },
                    None => {
                        proof {
                            assert(map@ =~= entry_start + spec_entry_lines(
                                comps,
                                m.insights.entry_points,
                                k as int + 1,
                            ));
                        }
                    },
                }
                k = k + 1;
            }
            map.append("\n");
            proof {
                assert(map@ =~= before_entries + spec_entry_section(m));
            }
        } else {
            proof {
                assert(map@ =~= before_entries + spec_entry_section(m));
            }
        }
        let ghost before_connected = map@;
        // the five most connected components
        let nc = self.insights.most_connected_components.len();
        if nc > 0 {
            map.append("Most Connected:\n");
            let ghost conn_start = map@;
            let lim = if nc < 5 {
                nc
            } else {
                5
            };
            let mut k: usize = 0;
            proof {
                assert(map@ =~= conn_start + spec_connected_lines(
                    comps,
                    m.insights.most_connected_components,
                    0int,
                ));
            }
            while k < lim
                invariant
                    0 <= k <= lim,
                    lim <= nc,
                    nc == self.insights.most_connected_components.len(),
                    comps == self@.graph.components,
                    m.insights.most_connected_components
                        == self@.insights.most_connected_components,
                    map@ == conn_start + spec_connected_lines(
                        comps,
                        m.insights.most_connected_components,
                        k as int,
                    ),
                decreases lim - k,
            {
                proof {
                    assert(m.insights.most_connected_components[k as int]
                        == self.insights.most_connected_components@[k as int]@);
                }
                match find_component(
                    &self.graph.components,
                    self.insights.most_connected_components[k].as_str(),
                ) {
                    Some(j) => {
                        proof {
                            crate::graph::lemma_find_id_props(
                                comps,
                                m.insights.most_connected_components[k as int],
                            );
                            assert(comps[j as int] == self.graph.components@[j as int]@);
                        }
                        map.append("  ");
                        map.append(render_usize(k + 1).as_str());
                        map.append(". ");
                        map.append(self.graph.components[j].name.as_str());
                        map.append(" (");
                        map.append(self.graph.components[j].file_path.as_str());
                        map.append(")\n");
                        proof {
                            assert(map@ =~= conn_start + spec_connected_lines(
                                comps,
                                m.insights.most_connected_components,
                                k as int + 1,
                            ));
                        }
                    },
                    None => {
                        proof {
                            assert(map@ =~= conn_start + spec_connected_lines(
                                comps,
                                m.insights.most_connected_components,
                                k as int + 1,
                            ));
                        }
                    },
                }
                k = k + 1;
            }
            proof {
                assert(map@ =~= before_connected + spec_connected_section(m));
            }
        } else {
            proof {
                assert(map@ =~= before_connected + spec_connected_section(m));
            }
        }
        let ghost before_order = map@;
        // the processing order, truncated to ten entries
        map.append("Processing Order (dependencies first):\n");
        let ghost order_start = map@;
        let no = self.topological_order.len();
        let lim = if no < 10 {
            no
        } else {
            10
        };
        let mut k: usize = 0;
        proof {
            assert(map@ =~= order_start + spec_order_lines(comps, m.topological_order, 0int));
        }
        while k < lim
            invariant
                0 <= k <= lim,
                lim <= no,
                no == self.topological_order.len(),
                comps == self@.graph.components,
                m.topological_order == self@.topological_order,
                map@ == order_start + spec_order_lines(comps, m.topological_order, k as int),
            decreases lim - k,
        {
            proof {
                assert(m.topological_order[k as int] == self.topological_order@[k as int]@);
            }
            match find_component(&self.graph.components, self.topological_order[k].as_str()) {
                Some(j) => {
                    proof {
                        crate::graph::lemma_find_id_props(comps, m.topological_order[k as int]);
                        assert(comps[j as int] == self.graph.components@[j as int]@);
                    }
                    map.append("  ");
                    map.append(render_usize(k + 1).as_str());
                    map.append(". ");
                    map.append(self.graph.components[j].name.as_str());
                    map.append("\n");
                    proof {
                        assert(map@ =~= order_start + spec_order_lines(
                            comps,
                            m.topological_order,
                            k as int + 1,
                        ));
                    }
                },
                None => {
                    proof {
                        assert(map@ =~= order_start + spec_order_lines(
                            comps,
                            m.topological_order,
                            k as int + 1,
                        ));
                    }
                },
            }
            k = k + 1;
        }
        if no > 10 {
            map.append("  ... and ");
            map.append(render_usize(no - 10).as_str());
            map.append(" more\n");
        }
        proof {
            assert(map@ =~= before_order + spec_order_section(m));
            assert(map@ =~= spec_render_map(m));
        }
        map
    }
}

} // verus!
