use rgu_labs_term3_discrete_math::cli::{parse_args, ArgError, InputFormat};
use rgu_labs_term3_discrete_math::graph::{infer_directed, Graph};
use rgu_labs_term3_discrete_math::ingest::GraphParseError;
use rgu_labs_term3_discrete_math::metrics::{eccentricities, filter_vertices_by_value, graph_metrics};

fn analyzed(g: &Graph) -> rgu_labs_term3_discrete_math::report::GraphResults {
    let mut r = g.analyze();
    r.compute_graph_metrics();
    r
}

#[test]
fn scenario_symmetric_edge_list_is_undirected() {
    let g = Graph::parse_edgelist("3\n1 2 1.0\n2 1 1.0\n2 3 1.0\n3 2 1.0\n").unwrap();
    assert!(!g.directed);
    let r = analyzed(&g);
    assert_eq!(r.weak_components, vec![vec![0, 1, 2]]);
    assert_eq!(r.distances[0][2], Some(2_000_000));
    assert_eq!(r.paths[0][2], Some(vec![0, 1, 2]));
}

#[test]
fn scenario_single_arc_is_directed() {
    let g = Graph::parse_edgelist("2\n1 2 5.0\n").unwrap();
    assert!(g.directed);
    let r = analyzed(&g);
    assert_eq!(r.weak_components, vec![vec![0, 1]]);
    assert_eq!(r.strong_components, vec![vec![0], vec![1]]);
    assert_eq!(r.distances[0][1], Some(5_000_000));
    assert_eq!(r.distances[1][0], None);
    assert!(r.metrics.is_none());
}

#[test]
fn scenario_matrix_with_isolated_vertex() {
    let g = Graph::parse_matrix("3\n0 1 0\n1 0 0\n0 0 0\n").unwrap();
    assert!(!g.directed);
    let r = analyzed(&g);
    assert_eq!(r.weak_components, vec![vec![0, 1], vec![2]]);
    assert_eq!(r.distances[2][0], None);
    assert_eq!(r.distances[2][1], None);
    assert_eq!(r.distances[0][2], None);
    assert_eq!(r.distances[1][2], None);
    assert_eq!(eccentricities(&r.distances), vec![None, None, None]);
    let m = r.metrics.unwrap();
    assert_eq!(m.diameter, None);
    assert_eq!(m.radius, None);
    assert_eq!(m.centers, vec![0, 1, 2]);
    assert_eq!(m.periphery, vec![0, 1, 2]);
}

#[test]
fn scenario_single_vertex() {
    let g = Graph::parse_edgelist("1\n").unwrap();
    assert!(!g.directed);
    let r = analyzed(&g);
    assert_eq!(r.weak_components, vec![vec![0]]);
    assert_eq!(r.distances, vec![vec![Some(0)]]);
    let m = r.metrics.unwrap();
    assert_eq!(m.diameter, Some(0));
    assert_eq!(m.radius, Some(0));
    assert_eq!(m.centers, vec![0]);
    assert_eq!(m.periphery, vec![0]);
}

#[test]
fn weak_components_partition_vertices() {
    let g = Graph::parse_edgelist("6\n1 2 1\n3 2 1\n5 6 2\n").unwrap();
    let r = g.analyze();
    assert_eq!(r.weak_components, vec![vec![0, 1, 2], vec![3], vec![4, 5]]);
    let mut seen = vec![0; 6];
    for c in &r.weak_components {
        assert!(!c.is_empty());
        for &v in c {
            seen[v] += 1;
        }
    }
    assert_eq!(seen, vec![1; 6]);
}

#[test]
fn strong_components_of_undirected_graph_are_weak() {
    let g = Graph::parse_edgelist("5\n1 2 3\n2 1 3\n4 5 1\n5 4 1\n").unwrap();
    assert!(!g.directed);
    assert_eq!(g.strongly_connected_components(), g.weakly_connected_components());
    assert_eq!(g.weakly_connected_components(), vec![vec![0, 1], vec![2], vec![3, 4]]);
}

#[test]
fn strong_components_of_directed_cycle_and_tail() {
    let g = Graph::parse_edgelist("4\n1 2 1\n2 3 1\n3 1 1\n3 4 1\n").unwrap();
    assert!(g.directed);
    assert_eq!(g.strongly_connected_components(), vec![vec![0, 1, 2], vec![3]]);
    assert_eq!(g.weakly_connected_components(), vec![vec![0, 1, 2, 3]]);
}

#[test]
fn every_vertex_is_at_distance_zero_from_itself() {
    let g = Graph::parse_edgelist("4\n1 2 7\n2 3 1\n4 1 2\n").unwrap();
    let r = g.analyze();
    for v in 0..4 {
        assert_eq!(r.distances[v][v], Some(0));
        assert_eq!(r.paths[v][v], None);
    }
}

#[test]
fn recorded_paths_follow_edges_and_sum_to_distance() {
    let g = Graph::parse_edgelist("4\n1 2 4\n1 3 1\n3 2 1\n2 4 1\n").unwrap();
    let r = g.analyze();
    assert_eq!(r.distances[0][3], Some(3_000_000));
    assert_eq!(r.paths[0][3], Some(vec![0, 2, 1, 3]));
    for u in 0..4 {
        for v in 0..4 {
            if let Some(p) = &r.paths[u][v] {
                assert_eq!(p[0], u);
                assert_eq!(*p.last().unwrap(), v);
                let mut total = 0u64;
                for i in 0..p.len() - 1 {
                    let w = g.adj[p[i]].iter().filter(|e| e.0 == p[i + 1]).map(|e| e.1 as u64).min();
                    total += w.unwrap();
                }
                assert_eq!(Some(total), r.distances[u][v]);
            }
        }
    }
}

#[test]
fn undirected_graph_round_trips_to_undirected() {
    let mut g = Graph::new(4, false);
    g.add_edge(0, 1, 2);
    g.add_edge(1, 2, 3);
    g.add_edge(3, 3, 1);
    let edges = g.edge_list();
    assert_eq!(edges.len(), 6);
    assert!(!infer_directed(&edges));
}

#[test]
fn undirected_degrees_are_twice_incident_edges() {
    let g = Graph::parse_edgelist("3\n1 2 1\n2 1 1\n2 3 1\n3 2 1\n").unwrap();
    let (deg_in, deg_out) = g.degrees();
    let halved: Vec<usize> = deg_out.iter().map(|d| d / 2).collect();
    assert_eq!(halved, vec![1, 2, 1]);
    assert_eq!(deg_in, deg_out);
}

#[test]
fn directed_degrees_count_entries() {
    let g = Graph::parse_edgelist("3\n1 2 1\n1 3 1\n2 3 1\n").unwrap();
    let (deg_in, deg_out) = g.degrees();
    assert_eq!(deg_out, vec![2, 1, 0]);
    assert_eq!(deg_in, vec![0, 1, 2]);
}

#[test]
fn empty_edge_set_is_undirected() {
    assert!(!infer_directed(&Vec::new()));
    assert!(infer_directed(&vec![(0, 1, 1)]));
    assert!(infer_directed(&vec![(0, 1, 1), (1, 0, 2)]));
    assert!(!infer_directed(&vec![(0, 1, 1), (1, 0, 1)]));
}

#[test]
fn add_edge_stores_both_directions_when_undirected() {
    let mut g = Graph::new(3, false);
    g.add_edge(0, 2, 9);
    assert_eq!(g.adj[0], vec![(2, 9)]);
    assert_eq!(g.adj[2], vec![(0, 9)]);
    let mut d = Graph::new(3, true);
    d.add_edge(0, 2, 9);
    assert_eq!(d.adj[0], vec![(2, 9)]);
    assert!(d.adj[2].is_empty());
}

#[test]
fn dijkstra_prefers_cheaper_longer_route() {
    let g = Graph::parse_edgelist("3\n1 3 10\n1 2 3\n2 3 3\n").unwrap();
    let (dist, prev) = g.dijkstra(0);
    assert_eq!(dist, vec![Some(0), Some(3_000_000), Some(6_000_000)]);
    assert_eq!(prev, vec![None, Some(0), Some(1)]);
}

#[test]
fn adjacency_list_reading() {
    let g = Graph::parse_adjust("3\n2:1 3:4\n1:1\n1:4\n").unwrap();
    assert!(!g.directed);
    assert_eq!(g.n, 3);
    let r = g.analyze();
    assert_eq!(r.distances[1][2], Some(5_000_000));
    assert_eq!(r.paths[1][2], Some(vec![1, 0, 2]));
}

#[test]
fn matrix_reading_with_weights() {
    let g = Graph::parse_matrix("2\n0 2.0\n3 0\n").unwrap();
    assert!(g.directed);
    assert_eq!(g.adj[0], vec![(1, 2_000_000)]);
    assert_eq!(g.adj[1], vec![(0, 3_000_000)]);
}

#[test]
fn parse_errors() {
    assert_eq!(Graph::parse_edgelist("").unwrap_err(), GraphParseError::MissingVertexCount);
    assert_eq!(Graph::parse_edgelist("x\n").unwrap_err(), GraphParseError::InvalidVertexCount);
    assert_eq!(Graph::parse_edgelist("2\n1 2\n").unwrap_err(), GraphParseError::WrongTokenCount);
    assert_eq!(Graph::parse_edgelist("2\na 2 1\n").unwrap_err(), GraphParseError::BadVertex);
    assert_eq!(Graph::parse_edgelist("2\n1 2 x\n").unwrap_err(), GraphParseError::BadWeight);
    assert_eq!(Graph::parse_edgelist("2\n1 2 1.5.0\n").unwrap_err(), GraphParseError::BadWeight);
    assert_eq!(Graph::parse_edgelist("2\n1 2 -\n").unwrap_err(), GraphParseError::BadWeight);
    assert_eq!(Graph::parse_edgelist("2\n1 2 .\n").unwrap_err(), GraphParseError::BadWeight);
    assert_eq!(Graph::parse_edgelist("2\n1 2 0.1234567\n").unwrap_err(), GraphParseError::BadWeight);
    assert_eq!(Graph::parse_edgelist("2\n1 2 2000000\n").unwrap_err(), GraphParseError::BadWeight);
    assert_eq!(Graph::parse_edgelist("2\n1 3 1\n").unwrap_err(), GraphParseError::VertexOutOfRange);
    assert_eq!(Graph::parse_edgelist("2\n0 1 1\n").unwrap_err(), GraphParseError::VertexOutOfRange);
    assert_eq!(Graph::parse_matrix("2\n0 1\n1\n").unwrap_err(), GraphParseError::WrongColumnCount);
    assert_eq!(Graph::parse_matrix("1\n0\n0\n").unwrap_err(), GraphParseError::VertexOutOfRange);
    assert_eq!(Graph::parse_adjust("2\n2\n").unwrap_err(), GraphParseError::BadWeight);
    assert_eq!(Graph::parse_adjust("2\n2:1\n1:1\n1:1\n").unwrap_err(), GraphParseError::VertexOutOfRange);
}

#[test]
fn blank_lines_are_skipped() {
    let g = Graph::parse_edgelist("  2  \n\n1 2 1\n\n").unwrap();
    assert_eq!(g.n, 2);
    assert_eq!(g.adj[0], vec![(1, 1_000_000)]);
}

#[test]
fn metrics_of_a_path() {
    let g = Graph::parse_edgelist("3\n1 2 1\n2 1 1\n2 3 2\n3 2 2\n").unwrap();
    let r = g.analyze();
    assert_eq!(eccentricities(&r.distances), vec![Some(3_000_000), Some(2_000_000), Some(3_000_000)]);
    let m = graph_metrics(&r.distances);
    assert_eq!(m.diameter, Some(3_000_000));
    assert_eq!(m.radius, Some(2_000_000));
    assert_eq!(m.centers, vec![1]);
    assert_eq!(m.periphery, vec![0, 2]);
    assert_eq!(filter_vertices_by_value(&vec![Some(1), None, Some(1)], Some(1)), vec![0, 2]);
    assert_eq!(filter_vertices_by_value(&vec![Some(1), None, Some(1)], None), vec![1]);
}

#[test]
fn selected_pairs_list_reachable_pairs() {
    let g = Graph::parse_edgelist("3\n1 2 1\n").unwrap();
    let r = g.analyze();
    assert_eq!(r.selected_pairs, vec![(0, 1)]);
}

#[test]
fn decimal_weights_are_exact() {
    let g = Graph::parse_edgelist("3\n1 2 1.25\n2 3 0.5\n1 3 7.\n").unwrap();
    assert_eq!(g.adj[0], vec![(1, 1_250_000), (2, 7_000_000)]);
    let r = g.analyze();
    assert_eq!(r.distances[0][2], Some(1_750_000));
    assert_eq!(r.paths[0][2], Some(vec![0, 1, 2]));
}

#[test]
fn negative_and_signed_weights_are_read() {
    let g = Graph::parse_edgelist("1\n1 1 -1\n").unwrap();
    assert_eq!(g.n, 1);
    assert!(!g.directed);
    assert_eq!(g.adj[0], vec![(0, -1_000_000), (0, -1_000_000)]);
    let m = Graph::parse_matrix("1\n-1\n").unwrap();
    assert!(!m.directed);
    assert_eq!(m.adj[0], vec![(0, -1_000_000), (0, -1_000_000)]);
    let a = Graph::parse_adjust("1\n1:-1\n").unwrap();
    assert_eq!(a.adj[0], vec![(0, -1_000_000), (0, -1_000_000)]);
    let b = Graph::parse_edgelist("+2\n+1 2 .5\n2 1 +0.5\n").unwrap();
    assert!(!b.directed);
    assert_eq!(b.adj[0], vec![(1, 500_000), (1, 500_000)]);
}

#[test]
fn unicode_blanks_separate_tokens() {
    let g = Graph::parse_edgelist("2\n1\u{a0}2\u{3000}3\n").unwrap();
    assert_eq!(g.adj[0], vec![(1, 3_000_000)]);
}

#[test]
fn selected_pairs_are_row_major() {
    let g = Graph::parse_edgelist("3\n3 1 1\n1 2 1\n2 3 1\n").unwrap();
    let r = g.analyze();
    assert_eq!(r.selected_pairs, vec![(0, 1), (0, 2), (1, 0), (1, 2), (2, 0), (2, 1)]);
}

#[test]
fn command_line_is_read() {
    let args: Vec<String> = ["-e", "g.txt", "-n", "+3", "-o", "out.txt"].iter().map(|s| s.to_string()).collect();
    let c = parse_args(&args).unwrap();
    assert_eq!(c.input_format, Some(InputFormat::Edges));
    assert_eq!(c.input_file.as_deref(), Some("g.txt"));
    assert_eq!(c.output_file.as_deref(), Some("out.txt"));
    assert_eq!(c.start_vertex, Some(3));
    assert!(matches!(parse_args(&vec![]), Err(ArgError::MissingFormatKey)));
    assert!(matches!(parse_args(&vec!["-x".to_string()]), Err(ArgError::UnknownFlag(f)) if f == "-x"));
    assert!(matches!(parse_args(&vec!["-e".to_string()]), Err(ArgError::MissingFormatPath(_))));
    assert!(matches!(parse_args(&vec!["-e".to_string(), "a".to_string(), "-d".to_string(), "x".to_string()]), Err(ArgError::InvalidNumber(_))));
    assert!(parse_args(&vec!["-h".to_string()]).unwrap().help);
}

#[test]
fn parallel_entries_use_the_lightest() {
    let g = Graph::parse_edgelist("2\n1 2 5\n1 2 2.5\n").unwrap();
    let r = g.analyze();
    assert_eq!(r.distances[0][1], Some(2_500_000));
    assert_eq!(r.paths[0][1], Some(vec![0, 1]));
}
