use ipfrs::graph::{ComputationGraph, GraphNode, GraphOptimizer};
use ipfrs::graph_exec::{
    BatchScheduler, DistributedExecutor, ExecutionBatch, GraphPartition, LazyCache, NodeAssignment, ParallelExecutor,
    StreamChunk, StreamingExecutor,
};
use ipfrs::graph_op::{GraphError, TensorOp};

fn input_node(id: &str, name: &str) -> GraphNode {
    GraphNode::new(id.to_string(), TensorOp::Input { name: name.to_string() })
}

#[test]
fn test_tensor_op() {
    let add = TensorOp::Add;
    assert_eq!(add.num_inputs(), 2);
    assert!(add.is_pure());

    let relu = TensorOp::ReLU;
    assert_eq!(relu.num_inputs(), 1);
}

#[test]
fn test_graph_node() {
    let node = GraphNode::new("node1".to_string(), TensorOp::Add)
        .add_input("input1".to_string())
        .add_input("input2".to_string())
        .with_output_shape(vec![10, 20]);

    assert_eq!(node.inputs.len(), 2);
    assert_eq!(node.output_shape, Some(vec![10, 20]));
}

#[test]
fn test_computation_graph() {
    let mut graph = ComputationGraph::new();
    graph.add_node(input_node("input1", "x")).unwrap();
    graph.add_node(input_node("input2", "y")).unwrap();
    graph.mark_input("input1".to_string());
    graph.mark_input("input2".to_string());

    let add = GraphNode::new("add1".to_string(), TensorOp::Add)
        .add_input("input1".to_string())
        .add_input("input2".to_string());
    graph.add_node(add).unwrap();
    graph.mark_output("add1".to_string());

    assert_eq!(graph.node_count(), 3);
    assert_eq!(graph.input_count(), 2);
    assert_eq!(graph.output_count(), 1);
}

#[test]
fn test_topological_sort() {
    let mut graph = ComputationGraph::new();
    graph.add_node(input_node("a", "x")).unwrap();
    let b = GraphNode::new("b".to_string(), TensorOp::ReLU).add_input("a".to_string());
    graph.add_node(b).unwrap();
    let c = GraphNode::new("c".to_string(), TensorOp::Tanh).add_input("b".to_string());
    graph.add_node(c).unwrap();

    let sorted = graph.topological_sort().unwrap();
    let pos_a = sorted.iter().position(|x| x == "a").unwrap();
    let pos_b = sorted.iter().position(|x| x == "b").unwrap();
    let pos_c = sorted.iter().position(|x| x == "c").unwrap();
    assert!(pos_a < pos_b);
    assert!(pos_b < pos_c);
}

#[test]
fn test_subgraph_extraction() {
    let mut graph = ComputationGraph::new();
    graph.add_node(input_node("a", "x")).unwrap();
    graph.mark_input("a".to_string());
    let b = GraphNode::new("b".to_string(), TensorOp::ReLU).add_input("a".to_string());
    let c = GraphNode::new("c".to_string(), TensorOp::Tanh).add_input("a".to_string());
    graph.add_node(b).unwrap();
    graph.add_node(c).unwrap();

    let subgraph = graph.extract_subgraph(&vec!["b".to_string()]).unwrap();
    assert_eq!(subgraph.node_count(), 2);
    assert!(subgraph.contains_node("a"));
    assert!(subgraph.contains_node("b"));
    assert!(!subgraph.contains_node("c"));
}

#[test]
fn test_cse_optimization() {
    let mut graph = ComputationGraph::new();
    let add1 = GraphNode::new("add1".to_string(), TensorOp::Add).add_input("a".to_string()).add_input("b".to_string());
    let add2 = GraphNode::new("add2".to_string(), TensorOp::Add).add_input("a".to_string()).add_input("b".to_string());
    graph.add_node(input_node("a", "x")).unwrap();
    graph.add_node(input_node("b", "y")).unwrap();
    graph.add_node(add1).unwrap();
    graph.add_node(add2).unwrap();

    let _optimized = graph.optimize_cse();
}

#[test]
fn test_lazy_cache() {
    let mut cache = LazyCache::new(2);
    cache.insert("node1".to_string(), vec![1.0f32, 2.0]);
    cache.insert("node2".to_string(), vec![3.0f32, 4.0]);
    assert_eq!(cache.size(), 2);
    assert!(cache.get("node1").is_some());

    cache.insert("node3".to_string(), vec![5.0f32, 6.0]);
    assert_eq!(cache.size(), 2);
}

#[test]
fn test_graph_optimizer() {
    let mut graph = ComputationGraph::new();
    graph.add_node(input_node("input", "x")).unwrap();
    graph.mark_input("input".to_string());
    let relu = GraphNode::new("relu".to_string(), TensorOp::ReLU).add_input("input".to_string());
    let dead = GraphNode::new("dead".to_string(), TensorOp::Tanh).add_input("input".to_string());
    graph.add_node(relu).unwrap();
    graph.add_node(dead).unwrap();
    graph.mark_output("relu".to_string());

    let removed = GraphOptimizer::remove_dead_nodes(&mut graph).unwrap();
    assert_eq!(removed, 1);
    assert!(!graph.contains_node("dead"));
}

fn diamond() -> ComputationGraph {
    let mut graph = ComputationGraph::new();
    graph.add_node(input_node("a", "x")).unwrap();
    graph.mark_input("a".to_string());
    let b = GraphNode::new("b".to_string(), TensorOp::ReLU).add_input("a".to_string());
    let c = GraphNode::new("c".to_string(), TensorOp::Tanh).add_input("a".to_string());
    graph.add_node(b).unwrap();
    graph.add_node(c).unwrap();
    let d = GraphNode::new("d".to_string(), TensorOp::Add).add_input("b".to_string()).add_input("c".to_string());
    graph.add_node(d).unwrap();
    graph.mark_output("d".to_string());
    graph
}

#[test]
fn test_batch_scheduler() {
    let graph = diamond();
    let batches = BatchScheduler::create_batches(&graph).unwrap();
    assert_eq!(batches.len(), 3);
    assert_eq!(batches[0].size(), 1);
    assert_eq!(batches[1].size(), 2);
    assert_eq!(batches[2].size(), 1);
}

#[test]
fn test_parallel_executor() {
    let mut graph = ComputationGraph::new();
    graph.add_node(input_node("input1", "x")).unwrap();
    graph.add_node(input_node("input2", "y")).unwrap();
    graph.mark_input("input1".to_string());
    graph.mark_input("input2".to_string());
    let add = GraphNode::new("add".to_string(), TensorOp::Add)
        .add_input("input1".to_string())
        .add_input("input2".to_string());
    graph.add_node(add).unwrap();
    graph.mark_output("add".to_string());

    let executor = ParallelExecutor::new(Some(2));
    let result = executor.execute(&graph).unwrap();
    assert_eq!(result.len(), 3);
}

#[test]
fn test_execution_batch() {
    let mut batch = ExecutionBatch::new(0);
    batch.add_node("node1".to_string());
    batch.add_node("node2".to_string());
    assert_eq!(batch.size(), 2);
    assert_eq!(batch.level, 0);
    assert!(batch.node_ids.contains(&"node1".to_string()));
}

#[test]
fn test_streaming_executor() {
    let executor: StreamingExecutor<f32> = StreamingExecutor::new(100, 10);
    let data: Vec<f32> = (0..250).map(|i| i as f32).collect();
    let chunks = executor.create_chunks(data.clone(), "test_node");

    assert_eq!(chunks.len(), 3);
    assert_eq!(chunks[0].get_data("test_node").unwrap().len(), 100);
    assert_eq!(chunks[1].get_data("test_node").unwrap().len(), 100);
    assert_eq!(chunks[2].get_data("test_node").unwrap().len(), 50);
    assert!(chunks[2].is_last());
    assert_eq!(executor.chunk_size(), 100);
    assert_eq!(executor.max_buffer_size(), 10);
}

#[test]
fn test_stream_chunk() {
    let mut chunk = StreamChunk::new(0, 5);
    chunk.add_data("node1".to_string(), vec![1.0f32, 2.0, 3.0]);
    chunk.add_data("node2".to_string(), vec![4.0f32, 5.0, 6.0]);
    assert_eq!(chunk.index, 0);
    assert_eq!(chunk.total_chunks, 5);
    assert!(!chunk.is_last());
    assert_eq!(chunk.data.len(), 2);

    let last_chunk: StreamChunk<f32> = StreamChunk::new(4, 5);
    assert!(last_chunk.is_last());
}

#[test]
fn test_streaming_process_stream() {
    let graph = ComputationGraph::new();
    let mut executor: StreamingExecutor<f32> = StreamingExecutor::new(100, 5);
    let data: Vec<f32> = (0..300).map(|i| i as f32).collect();
    let chunks = executor.create_chunks(data, "input");

    let results = executor.process_stream(&graph, chunks).unwrap();
    assert_eq!(results.len(), 3);
    assert!(executor.buffer_size() <= executor.max_buffer_size());

    executor.clear_buffer();
    assert_eq!(executor.buffer_size(), 0);
}

#[test]
fn test_distributed_executor_creation() {
    let executor = DistributedExecutor::new();
    assert_eq!(executor.worker_count(), 0);
    assert_eq!(executor.timeout(), 30000);

    let executor_custom = DistributedExecutor::new().with_timeout(60000);
    assert_eq!(executor_custom.timeout(), 60000);
}

#[test]
fn test_graph_partitioning() {
    let mut graph = ComputationGraph::new();
    graph.add_node(input_node("input", "x")).unwrap();
    graph.mark_input("input".to_string());
    let a = GraphNode::new("a".to_string(), TensorOp::ReLU).add_input("input".to_string());
    let b = GraphNode::new("b".to_string(), TensorOp::Tanh).add_input("a".to_string());
    let c = GraphNode::new("c".to_string(), TensorOp::Sigmoid).add_input("b".to_string());
    graph.add_node(a).unwrap();
    graph.add_node(b).unwrap();
    graph.add_node(c).unwrap();
    graph.mark_output("c".to_string());

    let mut executor = DistributedExecutor::new();
    let workers = vec!["worker1".to_string(), "worker2".to_string()];
    executor.partition_graph(&graph, &workers).unwrap();
    assert_eq!(executor.worker_count(), 2);

    let partition1 = executor.get_partition("worker1");
    let partition2 = executor.get_partition("worker2");
    assert!(partition1.is_some());
    assert!(partition2.is_some());
    let p1 = partition1.unwrap();
    let p2 = partition2.unwrap();
    assert!(p1.size() > 0);
    assert!(p2.size() > 0);
    assert_eq!(p1.size() + p2.size(), 4);
}

#[test]
fn test_cross_partition_dependencies() {
    let mut graph = ComputationGraph::new();
    graph.add_node(input_node("input1", "x")).unwrap();
    graph.add_node(input_node("input2", "y")).unwrap();
    graph.mark_input("input1".to_string());
    graph.mark_input("input2".to_string());
    let a = GraphNode::new("a".to_string(), TensorOp::ReLU).add_input("input1".to_string());
    let b = GraphNode::new("b".to_string(), TensorOp::Tanh).add_input("input2".to_string());
    let c = GraphNode::new("c".to_string(), TensorOp::Add).add_input("a".to_string()).add_input("b".to_string());
    graph.add_node(a).unwrap();
    graph.add_node(b).unwrap();
    graph.add_node(c).unwrap();
    graph.mark_output("c".to_string());

    let mut executor = DistributedExecutor::new();
    let workers = vec!["worker1".to_string(), "worker2".to_string(), "worker3".to_string()];
    executor.partition_graph(&graph, &workers).unwrap();

    let cost1 = executor.estimate_communication_cost("worker1");
    let cost2 = executor.estimate_communication_cost("worker2");
    let cost3 = executor.estimate_communication_cost("worker3");
    assert!(cost1 > 0 || cost2 > 0 || cost3 > 0);
}

#[test]
fn test_graph_partition_struct() {
    let mut partition = GraphPartition::new("worker1".to_string());
    partition.add_node("node1".to_string());
    partition.add_node("node2".to_string());
    partition.add_node("node1".to_string());
    assert_eq!(partition.size(), 2);

    partition.add_external_input("input1".to_string(), "worker2".to_string());
    partition.mark_external_output("output1".to_string());
    assert_eq!(partition.external_inputs.len(), 1);
    assert_eq!(partition.external_outputs.len(), 1);
}

#[test]
fn test_node_assignment() {
    let assignment = NodeAssignment { node_id: "node1".to_string(), worker_id: "worker1".to_string(), priority: 5 };
    assert_eq!(assignment.node_id, "node1");
    assert_eq!(assignment.worker_id, "worker1");
    assert_eq!(assignment.priority, 5);
}

#[test]
fn test_distributed_partition_no_workers() {
    let graph = ComputationGraph::new();
    let mut executor = DistributedExecutor::new();
    let workers: Vec<String> = vec![];
    let result = executor.partition_graph(&graph, &workers);
    assert!(result.is_err());
}

#[test]
fn test_shape_inference_matmul() {
    let op = TensorOp::MatMul;
    let input_shapes = vec![vec![2, 3, 4], vec![2, 4, 5]];
    assert_eq!(op.infer_output_shape(&input_shapes).unwrap(), vec![2, 3, 5]);
}

#[test]
fn test_shape_inference_add_broadcast() {
    let op = TensorOp::Add;
    let input_shapes = vec![vec![3, 1, 4], vec![3, 2, 4]];
    assert_eq!(op.infer_output_shape(&input_shapes).unwrap(), vec![3, 2, 4]);
}

#[test]
fn test_shape_inference_reduce_sum() {
    let op = TensorOp::ReduceSum { axes: vec![1], keepdims: false };
    let input_shapes = vec![vec![2, 3, 4]];
    assert_eq!(op.infer_output_shape(&input_shapes).unwrap(), vec![2, 4]);
}

#[test]
fn test_shape_inference_reduce_sum_keepdims() {
    let op = TensorOp::ReduceSum { axes: vec![1], keepdims: true };
    let input_shapes = vec![vec![2, 3, 4]];
    assert_eq!(op.infer_output_shape(&input_shapes).unwrap(), vec![2, 1, 4]);
}

#[test]
fn test_shape_inference_transpose() {
    let op = TensorOp::Transpose { axes: vec![0, 2, 1] };
    let input_shapes = vec![vec![2, 3, 4]];
    assert_eq!(op.infer_output_shape(&input_shapes).unwrap(), vec![2, 4, 3]);
}

#[test]
fn test_shape_inference_concat() {
    let op = TensorOp::Concat { axis: 1 };
    let input_shapes = vec![vec![2, 3, 4], vec![2, 5, 4]];
    assert_eq!(op.infer_output_shape(&input_shapes).unwrap(), vec![2, 8, 4]);
}

#[test]
fn test_shape_inference_reshape() {
    let op = TensorOp::Reshape { shape: vec![6, 4] };
    let input_shapes = vec![vec![2, 3, 4]];
    assert_eq!(op.infer_output_shape(&input_shapes).unwrap(), vec![6, 4]);
}

#[test]
fn test_graph_shape_propagation() {
    let mut graph = ComputationGraph::new();
    let mut input = input_node("input", "x");
    input.output_shape = Some(vec![2, 3]);
    graph.add_node(input).unwrap();
    graph.mark_input("input".to_string());

    let mut weight = GraphNode::new("weight".to_string(), TensorOp::Constant { value_cid: "cid1".to_string() });
    weight.output_shape = Some(vec![3, 4]);
    graph.add_node(weight).unwrap();

    let matmul = GraphNode::new("matmul".to_string(), TensorOp::MatMul)
        .add_input("input".to_string())
        .add_input("weight".to_string());
    graph.add_node(matmul).unwrap();
    let relu = GraphNode::new("relu".to_string(), TensorOp::ReLU).add_input("matmul".to_string());
    graph.add_node(relu).unwrap();
    graph.mark_output("relu".to_string());

    graph.propagate_shapes().unwrap();
    assert_eq!(graph.get_node("matmul").unwrap().output_shape, Some(vec![2, 4]));
    assert_eq!(graph.get_node("relu").unwrap().output_shape, Some(vec![2, 4]));
}

#[test]
fn test_graph_validation() {
    let mut graph = ComputationGraph::new();
    let input = input_node("input", "x").with_output_shape(vec![2, 3]);
    graph.add_node(input).unwrap();
    graph.mark_input("input".to_string());
    let relu = GraphNode::new("relu".to_string(), TensorOp::ReLU).add_input("input".to_string());
    graph.add_node(relu).unwrap();
    graph.mark_output("relu".to_string());
    assert!(graph.validate().is_ok());
}

#[test]
fn test_graph_validation_missing_input() {
    let mut graph = ComputationGraph::new();
    let relu = GraphNode::new("relu".to_string(), TensorOp::ReLU).add_input("nonexistent".to_string());
    assert!(graph.add_node(relu).is_err());
}

#[test]
fn test_estimate_memory() {
    let mut graph = ComputationGraph::new();
    let mut input = input_node("input", "x");
    input.output_shape = Some(vec![10, 20]);
    graph.add_node(input).unwrap();
    let mut weight = GraphNode::new("weight".to_string(), TensorOp::Constant { value_cid: "cid1".to_string() });
    weight.output_shape = Some(vec![20, 30]);
    graph.add_node(weight).unwrap();
    assert_eq!(graph.estimate_memory(), 800 + 2400);
}

#[test]
fn test_broadcast_shapes_same() {
    let result = TensorOp::broadcast_shapes(&[2, 3, 4], &[2, 3, 4]).unwrap();
    assert_eq!(result, vec![2, 3, 4]);
}

#[test]
fn test_broadcast_shapes_scalar() {
    let result = TensorOp::broadcast_shapes(&[2, 3, 4], &[1]).unwrap();
    assert_eq!(result, vec![2, 3, 4]);
}

#[test]
fn test_broadcast_shapes_incompatible() {
    let result = TensorOp::broadcast_shapes(&[2, 3, 4], &[2, 5, 4]);
    assert!(result.is_err());
}

// Further scenarios of the library's own.

#[test]
fn cycle_is_reported_by_sort_and_batches() {
    let mut graph = ComputationGraph::new();
    graph.add_node(input_node("a", "x")).unwrap();
    let b = GraphNode::new("b".to_string(), TensorOp::ReLU).add_input("a".to_string());
    graph.add_node(b).unwrap();
    // replace `a` by a node that reads `b`: a -> b -> a
    let a2 = GraphNode::new("a".to_string(), TensorOp::Tanh).add_input("b".to_string());
    graph.add_node(a2).unwrap();
    assert!(matches!(graph.topological_sort(), Err(GraphError::CircularDependency)));
    assert!(matches!(BatchScheduler::create_batches(&graph), Err(GraphError::CircularDependency)));
}

#[test]
fn batches_put_dependents_in_later_levels() {
    let graph = diamond();
    let batches = BatchScheduler::create_batches(&graph).unwrap();
    assert_eq!(batches[0].node_ids, vec!["a".to_string()]);
    assert!(batches[1].node_ids.contains(&"b".to_string()));
    assert!(batches[1].node_ids.contains(&"c".to_string()));
    assert_eq!(batches[2].node_ids, vec!["d".to_string()]);
    for (i, b) in batches.iter().enumerate() {
        assert_eq!(b.level, i);
    }
}

#[test]
fn fusion_of_matmul_add_and_add_relu() {
    let mut graph = ComputationGraph::new();
    graph.add_node(input_node("x", "x")).unwrap();
    graph.add_node(input_node("w", "w")).unwrap();
    graph.add_node(input_node("bias", "b")).unwrap();
    let mm = GraphNode::new("mm".to_string(), TensorOp::MatMul).add_input("x".to_string()).add_input("w".to_string());
    graph.add_node(mm).unwrap();
    let add = GraphNode::new("add".to_string(), TensorOp::Add).add_input("mm".to_string()).add_input("bias".to_string());
    graph.add_node(add).unwrap();
    let out = GraphNode::new("out".to_string(), TensorOp::Tanh).add_input("add".to_string());
    graph.add_node(out).unwrap();

    let fused = GraphOptimizer::fusion(&mut graph).unwrap();
    assert_eq!(fused, 1);
    assert!(!graph.contains_node("mm"));
    assert!(!graph.contains_node("add"));
    let f = graph.get_node("add_fused").unwrap();
    assert!(matches!(f.op, TensorOp::FusedLinear));
    assert_eq!(f.inputs, vec!["x".to_string(), "w".to_string(), "bias".to_string()]);
    assert_eq!(graph.get_node("out").unwrap().inputs, vec!["add_fused".to_string()]);
}

#[test]
fn fusion_skips_shared_producer() {
    let mut graph = ComputationGraph::new();
    graph.add_node(input_node("x", "x")).unwrap();
    graph.add_node(input_node("y", "y")).unwrap();
    let add = GraphNode::new("add".to_string(), TensorOp::Add).add_input("x".to_string()).add_input("y".to_string());
    graph.add_node(add).unwrap();
    let r1 = GraphNode::new("r1".to_string(), TensorOp::ReLU).add_input("add".to_string());
    let r2 = GraphNode::new("r2".to_string(), TensorOp::ReLU).add_input("add".to_string());
    graph.add_node(r1).unwrap();
    graph.add_node(r2).unwrap();
    assert_eq!(GraphOptimizer::fusion(&mut graph).unwrap(), 0);
    assert_eq!(graph.node_count(), 5);
}

#[test]
fn optimize_all_removes_dead_and_converges() {
    let mut graph = ComputationGraph::new();
    graph.add_node(input_node("input", "x")).unwrap();
    graph.mark_input("input".to_string());
    let relu = GraphNode::new("relu".to_string(), TensorOp::ReLU).add_input("input".to_string());
    let dead = GraphNode::new("dead".to_string(), TensorOp::Tanh).add_input("input".to_string());
    graph.add_node(relu).unwrap();
    graph.add_node(dead).unwrap();
    graph.mark_output("relu".to_string());
    GraphOptimizer::optimize_all(&mut graph).unwrap();
    assert_eq!(graph.node_count(), 2);
    assert!(!graph.contains_node("dead"));
}

#[test]
fn constant_folding_counts_nodes_of_constants() {
    let mut graph = ComputationGraph::new();
    graph.add_node(GraphNode::new("c1".to_string(), TensorOp::Constant { value_cid: "a".to_string() })).unwrap();
    graph.add_node(GraphNode::new("c2".to_string(), TensorOp::Constant { value_cid: "b".to_string() })).unwrap();
    let add = GraphNode::new("add".to_string(), TensorOp::Add).add_input("c1".to_string()).add_input("c2".to_string());
    graph.add_node(add).unwrap();
    // the two constants (no inputs) and the add of two constants
    assert_eq!(GraphOptimizer::constant_folding(&mut graph).unwrap(), 3);
}

#[test]
fn lazy_cache_evicts_least_recently_used() {
    let mut cache = LazyCache::new(2);
    cache.insert("a".to_string(), 1u32);
    cache.insert("b".to_string(), 2u32);
    assert_eq!(cache.get("a"), Some(&1));
    cache.insert("c".to_string(), 3u32);
    assert_eq!(cache.get("b"), None);
    assert_eq!(cache.get("a"), Some(&1));
    assert_eq!(cache.get("c"), Some(&3));
    cache.clear();
    assert_eq!(cache.size(), 0);
}

#[test]
fn execute_batch_reports_missing_node() {
    let graph = diamond();
    let executor = ParallelExecutor::new(None);
    let mut batch = ExecutionBatch::new(0);
    batch.add_node("b".to_string());
    let ok = executor.execute_batch(&batch, &graph, |n: &GraphNode| Ok::<usize, GraphError>(n.inputs.len())).unwrap();
    assert_eq!(ok, vec![("b".to_string(), 1)]);
    batch.add_node("zz".to_string());
    let err = executor.execute_batch(&batch, &graph, |n: &GraphNode| Ok::<usize, GraphError>(n.inputs.len()));
    assert!(matches!(err, Err(GraphError::NodeNotFound(_))));
}

#[test]
fn partition_round_robin_assignment() {
    let graph = diamond();
    let mut executor = DistributedExecutor::new();
    let workers = vec!["w1".to_string(), "w2".to_string()];
    executor.partition_graph(&graph, &workers).unwrap();
    let a = executor.get_assignment("a").unwrap();
    assert_eq!(a.priority, 0);
    assert_eq!(a.worker_id, "w1");
    let d = executor.get_assignment("d").unwrap();
    assert_eq!(d.priority, 3);
    assert_eq!(d.worker_id, "w2");
    let p1 = executor.get_partition("w1").unwrap();
    assert!(p1.subgraph.is_some());
    assert!(matches!(executor.execute_distributed::<f32>(&graph), Err(GraphError::ExecutionError(_))));
}

#[test]
fn execute_batch_empty_and_first_failure() {
    let graph = diamond();
    let executor = ParallelExecutor::new(None);
    let empty = ExecutionBatch::new(0);
    let none = executor.execute_batch(&empty, &graph, |_n: &GraphNode| Ok::<usize, GraphError>(1)).unwrap();
    assert!(none.is_empty());

    let mut batch = ExecutionBatch::new(0);
    batch.add_node("a".to_string());
    batch.add_node("missing".to_string());
    batch.add_node("other".to_string());
    match executor.execute_batch(&batch, &graph, |_n: &GraphNode| Ok::<usize, GraphError>(1)) {
        Err(GraphError::NodeNotFound(id)) => assert_eq!(id, "missing"),
        other => panic!("unexpected {:?}", other.map(|_| ())),
    }
    let failing = executor.execute_batch(&batch, &graph, |n: &GraphNode| {
        Err::<usize, GraphError>(GraphError::ExecutionError(n.id.clone()))
    });
    match failing {
        Err(GraphError::ExecutionError(id)) => assert_eq!(id, "a"),
        other => panic!("unexpected {:?}", other.map(|_| ())),
    }
}

#[test]
fn add_node_reports_missing_input_id() {
    let mut graph = ComputationGraph::new();
    let relu = GraphNode::new("relu".to_string(), TensorOp::ReLU).add_input("nonexistent".to_string());
    match graph.add_node(relu) {
        Err(GraphError::NodeNotFound(id)) => assert_eq!(id, "nonexistent"),
        other => panic!("unexpected {:?}", other),
    }
    assert_eq!(graph.node_count(), 0);
}

#[test]
fn shape_error_messages_carry_values() {
    let linear = TensorOp::FusedLinear;
    match linear.infer_output_shape(&vec![vec![2, 3], vec![3, 4]]) {
        Err(GraphError::MissingInput(m)) => assert_eq!(m, "FusedLinear requires 3 inputs"),
        other => panic!("unexpected {:?}", other),
    }
    match linear.infer_output_shape(&vec![vec![2], vec![3, 4], vec![4]]) {
        Err(GraphError::ShapeMismatch(m)) => assert_eq!(m, "Linear requires at least 2D tensors"),
        other => panic!("unexpected {:?}", other),
    }
    match TensorOp::MatMul.infer_output_shape(&vec![vec![2, 3], vec![5, 4]]) {
        Err(GraphError::ShapeMismatch(m)) => assert_eq!(m, "MatMul dimension mismatch: 3 vs 5"),
        other => panic!("unexpected {:?}", other),
    }
    match TensorOp::Add.infer_output_shape(&vec![vec![2, 3], vec![4, 3]]) {
        Err(GraphError::ShapeMismatch(m)) => assert_eq!(m, "Cannot broadcast shapes: [2, 3] and [4, 3]"),
        other => panic!("unexpected {:?}", other),
    }
}
