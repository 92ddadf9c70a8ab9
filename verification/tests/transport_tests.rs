use ipfrs::cid::Cid;
use ipfrs::error::ErrorKind;
use ipfrs::einsum::EinsumGraph;
use ipfrs::tensorswap::{
    deadline_bonus, deadline_class, deadline_state, dtype_bytes, BackpressureConfig, DeadlineState, BackpressureController, EinsumExpression, SafetensorsHeader, StreamRequest,
    StreamRequestQueue, TensorMetadata, TensorStream, TensorSwapConfig,
};
use std::time::{Duration, Instant};

fn test_cid() -> Cid {
    Cid::from_bytes(b"bafybeigdyrzt5sfp7udm7hu76uh7y26nf3efuylqabf3oclgtqy55fbzdi".to_vec())
}

fn test_cid2() -> Cid {
    Cid::from_bytes(b"bafybeiczsscdsbs7ffqz55asqdf3smv6klcw3gofszvwlyarci47bgf354".to_vec())
}

fn safetensors_bytes(header_json: &str) -> Vec<u8> {
    let header_bytes = header_json.as_bytes();
    let header_size = header_bytes.len() as u64;
    let mut data = Vec::new();
    data.extend_from_slice(&header_size.to_le_bytes());
    data.extend_from_slice(header_bytes);
    data
}

fn request(cid: Cid, priority: i32) -> StreamRequest {
    StreamRequest { cid, priority, deadline: None, queued_at: Instant::now() }
}

#[test]
fn test_tensor_metadata_builder() {
    let cid = test_cid();
    let metadata = TensorMetadata::new(cid)
        .with_shape(vec![1024, 768])
        .with_dtype("f32")
        .with_size(1024 * 768 * 4)
        .with_layer_name("encoder.layer.0.attention.query")
        .with_priority_hint(100)
        .critical();

    assert!(metadata.is_critical);
    assert_eq!(metadata.priority_hint, Some(100));
    assert_eq!(metadata.layer_name.as_deref(), Some("encoder.layer.0.attention.query"));
    assert_eq!(metadata.estimated_size(), Some(1024 * 768 * 4));
}

#[test]
fn test_tensor_size_estimation() {
    let cid = test_cid();

    let f32_meta = TensorMetadata::new(cid.clone()).with_shape(vec![100, 100]).with_dtype("f32");
    assert_eq!(f32_meta.estimated_size(), Some(100 * 100 * 4));

    let f16_meta = TensorMetadata::new(cid.clone()).with_shape(vec![100, 100]).with_dtype("f16");
    assert_eq!(f16_meta.estimated_size(), Some(100 * 100 * 2));

    let i8_meta = TensorMetadata::new(cid).with_shape(vec![100, 100]).with_dtype("i8");
    assert_eq!(i8_meta.estimated_size(), Some(100 * 100));
}

#[test]
fn test_size_estimation_unknown_dtype() {
    let meta = TensorMetadata::new(test_cid()).with_shape(vec![10, 10]).with_dtype("complex64");
    assert_eq!(meta.estimated_size(), None);
    let no_shape = TensorMetadata::new(test_cid()).with_dtype("f32");
    assert_eq!(no_shape.estimated_size(), None);
    assert_eq!(no_shape.num_elements(), None);
    let bf16 = TensorMetadata::new(test_cid()).with_shape(vec![3, 5]).with_dtype("bf16");
    assert_eq!(bf16.num_elements(), Some(15));
    assert_eq!(bf16.estimated_size(), Some(30));
    assert_eq!(dtype_bytes(&"f64".to_string()), Some(8));
    assert_eq!(dtype_bytes(&"bool".to_string()), Some(1));
    assert_eq!(dtype_bytes(&"F32".to_string()), None);
}

#[test]
fn test_chunked_metadata() {
    let meta = TensorMetadata::new(test_cid());
    assert!(!meta.is_chunked());
    let chunked = meta.with_chunks(vec![test_cid(), test_cid2()]);
    assert!(chunked.is_chunked());
}

#[test]
fn test_backpressure_controller() {
    let config = BackpressureConfig { max_pending: 10, high_watermark: 8, low_watermark: 2, max_buffer_bytes: 1024 };

    let mut bp = BackpressureController::new(config);
    assert!(bp.should_accept());
    assert!(!bp.is_paused());

    for _ in 0..8 {
        bp.on_send(100);
    }
    assert!(bp.is_paused());
    assert!(!bp.should_accept());

    for _ in 0..6 {
        bp.on_ack(100);
    }
    assert!(!bp.is_paused());
    assert!(bp.should_accept());
}

#[test]
fn test_backpressure_byte_limit_and_reset() {
    let config = BackpressureConfig { max_pending: 10, high_watermark: 8, low_watermark: 2, max_buffer_bytes: 1024 };
    let mut bp = BackpressureController::new(config);
    bp.on_send(1024);
    assert!(bp.is_paused());
    assert_eq!(bp.pending_count(), 1);
    assert_eq!(bp.pending_bytes(), 1024);
    // acknowledging more bytes than pending stops at zero
    bp.on_ack(4096);
    assert_eq!(bp.pending_bytes(), 0);
    assert_eq!(bp.pending_count(), 0);
    assert!(!bp.is_paused());
    bp.on_send(10);
    bp.reset();
    assert_eq!(bp.pending_count(), 0);
    assert_eq!(bp.pending_bytes(), 0);
    assert!(bp.should_accept());
}

#[test]
fn test_backpressure_stays_paused_above_low_watermark() {
    let config = BackpressureConfig { max_pending: 10, high_watermark: 4, low_watermark: 2, max_buffer_bytes: 1 << 20 };
    let mut bp = BackpressureController::new(config);
    for _ in 0..4 {
        bp.on_send(1);
    }
    assert!(bp.is_paused());
    bp.on_ack(1);
    assert!(bp.is_paused());
    bp.on_ack(1);
    assert!(!bp.is_paused());
}

#[test]
fn test_default_configs() {
    let config = TensorSwapConfig::default();
    assert!(config.progressive_streaming);
    assert_eq!(config.chunk_size, 1024 * 1024);
    assert_eq!(config.max_concurrent_streams, 16);
    assert_eq!(config.critical_priority_boost, 50);
    assert_eq!(config.dependency_priority_boost, 10);
    assert_eq!(config.backpressure.max_pending, 64);
    assert_eq!(config.backpressure.high_watermark, 48);
    assert_eq!(config.backpressure.low_watermark, 16);
}

#[test]
fn test_stream_request_queue() {
    let mut queue = StreamRequestQueue::new(10);
    let cid1 = test_cid();
    let cid2 = test_cid2();

    queue.push(request(cid1.clone(), 10));
    queue.push(request(cid2.clone(), 100));

    let first = queue.pop().unwrap();
    assert_eq!(first.cid, cid2);
    assert_eq!(first.priority, 100);

    let second = queue.pop().unwrap();
    assert_eq!(second.cid, cid1);
}

#[test]
fn test_stream_request_queue_full_and_fifo() {
    let mut queue = StreamRequestQueue::new(2);
    assert!(queue.is_empty());
    assert!(queue.push(request(test_cid(), 5)));
    assert!(queue.push(request(test_cid2(), 5)));
    assert!(!queue.push(request(test_cid(), 50)));
    assert_eq!(queue.len(), 2);
    // equal priorities keep their arrival order
    assert_eq!(queue.peek().unwrap().cid, test_cid());
    assert_eq!(queue.pop().unwrap().cid, test_cid());
    assert_eq!(queue.pop().unwrap().cid, test_cid2());
    assert!(queue.pop().is_none());
    assert!(queue.peek().is_none());
}

#[test]
fn test_safetensors_header_parse() {
    let header_json = r#"{"weight":{"dtype":"F32","shape":[768,768],"data_offsets":[0,2359296]}}"#;
    let data = safetensors_bytes(header_json);

    let header = SafetensorsHeader::parse(&data).unwrap();
    assert_eq!(header.tensors.len(), 1);

    let weight = header.get_tensor("weight").unwrap();
    assert_eq!(weight.dtype, "F32");
    assert_eq!(weight.shape, vec![768, 768]);
    assert_eq!(weight.data_length, 2359296);
}

#[test]
fn test_safetensors_header_metadata_and_defaults() {
    let header_json = r#"{"__metadata__":{"format":"pt"},"bias":{"shape":[4,"x",2]},"w":{"data_offsets":[16]}}"#;
    let data = safetensors_bytes(header_json);
    let header = SafetensorsHeader::parse(&data).unwrap();
    assert_eq!(header.tensors.len(), 2);
    assert!(header.get_tensor("__metadata__").is_none());
    let bias = header.get_tensor("bias").unwrap();
    assert_eq!(bias.dtype, "F32");
    assert_eq!(bias.shape, vec![4, 2]);
    assert_eq!(bias.data_offset, 0);
    assert_eq!(bias.data_length, 0);
    let w = header.get_tensor("w").unwrap();
    assert_eq!(w.data_offset, 16);
    assert_eq!(w.data_length, 0);
    let mut names = header.tensor_names();
    names.sort();
    assert_eq!(names, vec!["bias", "w"]);
    assert_eq!(header.data_start(), 8 + header.header_size);
}

#[test]
fn test_safetensors_header_errors() {
    let short = vec![1u8, 2, 3];
    assert_eq!(SafetensorsHeader::parse(&short).unwrap_err().error_kind(), ErrorKind::Deserialization);

    let mut truncated = 100u64.to_le_bytes().to_vec();
    truncated.extend_from_slice(b"{}");
    assert_eq!(SafetensorsHeader::parse(&truncated).unwrap_err().error_kind(), ErrorKind::Deserialization);

    let not_json = safetensors_bytes("not json");
    assert_eq!(SafetensorsHeader::parse(&not_json).unwrap_err().error_kind(), ErrorKind::Deserialization);

    let backwards = safetensors_bytes(r#"{"t":{"data_offsets":[10,4]}}"#);
    assert_eq!(SafetensorsHeader::parse(&backwards).unwrap_err().error_kind(), ErrorKind::Deserialization);
}

#[test]
fn test_safetensors_split_header() {
    let data = safetensors_bytes("{}");
    let (size, json) = SafetensorsHeader::split_header(&data).unwrap();
    assert_eq!(size, 2);
    assert_eq!(json, b"{}".to_vec());
}

#[test]
fn test_einsum_expression_parse() {
    let expr = EinsumExpression::parse("ij,jk->ik").unwrap();
    assert_eq!(expr.num_inputs(), 2);
    assert_eq!(expr.inputs[0], "ij");
    assert_eq!(expr.inputs[1], "jk");
    assert_eq!(expr.output, "ik");
    assert!(!expr.is_transpose());
    assert!(!expr.is_reduction());

    let shared = expr.shared_indices();
    assert_eq!(shared.len(), 1);
    assert!(shared.contains(&'j'));

    let expr2 = EinsumExpression::parse("ij->i").unwrap();
    assert!(expr2.is_reduction());
    assert_eq!(expr2.num_inputs(), 1);

    let expr3 = EinsumExpression::parse("ij->ji").unwrap();
    assert!(expr3.is_transpose());
}

#[test]
fn test_einsum_expression_errors_and_trimming() {
    assert_eq!(EinsumExpression::parse("ij,jk").unwrap_err().error_kind(), ErrorKind::InvalidInput);
    assert_eq!(EinsumExpression::parse("a->b->c").unwrap_err().error_kind(), ErrorKind::InvalidInput);
    let expr = EinsumExpression::parse(" ab , bc ,c -> ac ").unwrap();
    assert_eq!(expr.inputs, vec!["ab".to_string(), "bc".to_string(), "c".to_string()]);
    assert_eq!(expr.output, "ac");
    assert_eq!(expr.expression, " ab , bc ,c -> ac ");
    assert_eq!(expr.shared_indices(), vec!['b']);
    let empty = EinsumExpression::parse("->").unwrap();
    assert_eq!(empty.inputs, vec!["".to_string()]);
    assert_eq!(empty.output, "");
}

fn test_cid3() -> Cid {
    Cid::from_bytes(b"bafybeibxm2nsadl3fnxv2sxcxmxaco2jl53wpeorjdziber7rnz5gvv5h4".to_vec())
}

#[test]
fn test_tensor_stream() {
    let cid = test_cid();
    let chunk_cids = vec![test_cid(), test_cid2()];

    let metadata = TensorMetadata::new(cid).with_chunks(chunk_cids.clone()).with_size(2 * 1024 * 1024);

    let stream = TensorStream::new(metadata);

    assert!(!stream.is_complete());
    // progress is received / total chunks
    assert_eq!(stream.progress_counts(), (0, 2));
    assert_eq!(stream.missing_chunks().len(), 2);
}

#[test]
fn test_tensor_stream_receiving() {
    let metadata = TensorMetadata::new(test_cid3()).with_chunks(vec![test_cid(), test_cid2()]).with_size(1000);
    let mut stream = TensorStream::new(metadata);
    assert_eq!(stream.chunks[1].offset, 500);
    assert_eq!(stream.chunks[1].size, 500);
    assert!(stream.mark_received(&test_cid2(), 480));
    assert!(!stream.mark_received(&test_cid2(), 480));
    assert!(!stream.mark_received(&test_cid3(), 10));
    assert_eq!(stream.missing_chunks(), vec![test_cid()]);
    assert_eq!(stream.bytes_received, 480);
    assert_eq!(stream.find_chunk(&test_cid2()), Some(1));
    let update = stream.progress_update(1);
    assert_eq!(update.chunk_cid, test_cid2());
    assert_eq!(update.total_chunks, 2);
    assert!(!update.complete);
    assert!(stream.mark_received(&test_cid(), 520));
    assert!(stream.is_complete());
    assert!(stream.missing_chunks().is_empty());
    assert_eq!(stream.progress_counts(), (2, 2));
    assert_eq!(stream.bytes_received, 1000);
}

#[test]
fn test_tensor_stream_unchunked() {
    let metadata = TensorMetadata::new(test_cid()).with_size(64);
    let mut stream = TensorStream::new(metadata);
    assert_eq!(stream.chunks.len(), 1);
    assert_eq!(stream.chunks[0].size, 64);
    assert_eq!(stream.root_cid, test_cid());
    assert!(stream.mark_received(&test_cid(), 64));
    assert!(stream.is_complete());
    // unknown size, chunked: 1 MiB per chunk
    let chunked = TensorStream::new(TensorMetadata::new(test_cid()).with_chunks(vec![test_cid2(), test_cid3()]));
    assert_eq!(chunked.chunks[1].offset, 1024 * 1024);
}

#[test]
fn test_einsum_graph() {
    let mut graph = EinsumGraph::new();

    let cid_a = test_cid();
    let cid_b = test_cid2();
    let cid_c = test_cid3();

    graph.register_tensor("A", cid_a.clone());
    graph.register_tensor("B", cid_b.clone());
    graph.register_tensor("C", cid_c.clone());

    let expr = EinsumExpression::parse("ij,jk->ik").unwrap();
    let mut expr_with_names = expr.clone();
    expr_with_names.inputs = vec!["A".to_string(), "B".to_string()];
    expr_with_names.output = "C".to_string();

    graph.add_expression(expr_with_names);

    let deps = graph.get_dependencies("C").unwrap();
    assert_eq!(deps.len(), 2);
    assert!(deps.contains(&cid_a));
    assert!(deps.contains(&cid_b));

    let priority_a = graph.compute_priority("A");
    let priority_c = graph.compute_priority("C");
    assert!(priority_a > priority_c);

    let order = graph.topological_order().unwrap();
    assert_eq!(order.len(), 3);

    let pos_c = order.iter().position(|(name, _)| name == "C").unwrap();
    let pos_a = order.iter().position(|(name, _)| name == "A").unwrap();
    let pos_b = order.iter().position(|(name, _)| name == "B").unwrap();
    assert!(pos_a < pos_c);
    assert!(pos_b < pos_c);
}

#[test]
fn test_einsum_metadata_generation() {
    let mut graph = EinsumGraph::new();

    let cid_a = test_cid();
    let cid_b = test_cid2();
    let cid_c = test_cid3();

    graph.register_tensor("A", cid_a);
    graph.register_tensor("B", cid_b);
    graph.register_tensor("C", cid_c.clone());

    let expr = EinsumExpression {
        expression: "ij,jk->ik".to_string(),
        inputs: vec!["A".to_string(), "B".to_string()],
        output: "C".to_string(),
    };
    graph.add_expression(expr);

    let metadata = graph.generate_metadata("C").unwrap();
    assert_eq!(metadata.cid, cid_c);
    assert_eq!(metadata.dependencies.len(), 2);
    assert!(metadata.priority_hint.is_some());
}

#[test]
fn test_einsum_graph_chain_and_missing() {
    let mut graph = EinsumGraph::new();
    // D = f(C), C = g(A, X) with X never registered
    graph.add_expression(EinsumExpression { expression: "i->i".to_string(), inputs: vec!["C".to_string()], output: "D".to_string() });
    graph.add_expression(EinsumExpression {
        expression: "i,i->i".to_string(),
        inputs: vec!["A".to_string(), "X".to_string()],
        output: "C".to_string(),
    });
    graph.register_tensor("D", test_cid3());
    graph.register_tensor("C", test_cid2());
    graph.register_tensor("A", test_cid());
    assert_eq!(graph.compute_priority("A"), 1000);
    assert_eq!(graph.compute_priority("C"), 900);
    assert_eq!(graph.compute_priority("D"), 800);
    assert_eq!(graph.get_dependencies("D"), Some(vec![test_cid2()]));
    assert_eq!(graph.get_dependencies("C"), None);
    assert_eq!(graph.get_dependencies("A"), None);
    let names: Vec<String> = graph.topological_order().unwrap().into_iter().map(|(n, _)| n).collect();
    assert_eq!(names, vec!["A".to_string(), "C".to_string(), "D".to_string()]);
    let meta = graph.generate_metadata("C").unwrap();
    assert!(meta.dependencies.is_empty());
    assert_eq!(meta.priority_hint, Some(900));
    assert!(graph.generate_metadata("X").is_none());
    // re-registering replaces the CID
    graph.register_tensor("A", test_cid3());
    assert_eq!(graph.tensor_cids().len(), 3);
    assert!(graph.tensor_cids().contains(&("A".to_string(), test_cid3())));
}

#[test]
fn test_einsum_unicode_whitespace_trimmed() {
    let expr = EinsumExpression::parse("\u{3000}ij\t,\u{a0}jk ->\nik\u{2003}").unwrap();
    assert_eq!(expr.inputs, vec!["ij".to_string(), "jk".to_string()]);
    assert_eq!(expr.output, "ik");
    let blank = EinsumExpression::parse(" \t ->   ").unwrap();
    assert_eq!(blank.inputs, vec!["".to_string()]);
    assert_eq!(blank.output, "");
}

#[test]
fn test_metadata_priority_sums_terms() {
    let config = TensorSwapConfig::default();
    let meta = TensorMetadata::new(test_cid())
        .with_priority_hint(5)
        .critical()
        .with_dependencies(vec![test_cid2(), test_cid3()])
        .with_deadline(Instant::now());
    // 5 + 50 (critical) + 30 (deadline) + 2 * 10 (dependencies)
    assert_eq!(config.metadata_priority(&meta, 30), 105);

    let mut no_deadlines = TensorSwapConfig::default();
    no_deadlines.deadline_aware = false;
    assert_eq!(no_deadlines.metadata_priority(&meta, 30), 75);

    let plain = TensorMetadata::new(test_cid());
    assert_eq!(config.metadata_priority(&plain, 30), 0);
}

#[test]
fn test_deadline_bonus_caps() {
    assert_eq!(deadline_bonus(0), 100);
    assert_eq!(deadline_bonus(40), 60);
    assert_eq!(deadline_bonus(100), 0);
    assert_eq!(deadline_bonus(5000), 0);
}

#[test]
fn test_admit_stream() {
    let config = TensorSwapConfig::default();
    let mut bp = BackpressureController::new(BackpressureConfig::default());
    assert!(config.admit_stream(&bp, 0).is_ok());
    assert!(config.admit_stream(&bp, 15).is_ok());

    let full = config.admit_stream(&bp, 16).unwrap_err();
    assert_eq!(full.error_kind(), ErrorKind::Internal);
    assert_eq!(full.message(), "Maximum concurrent streams reached");

    for _ in 0..48 {
        bp.on_send(100);
    }
    let paused = config.admit_stream(&bp, 0).unwrap_err();
    assert_eq!(paused.error_kind(), ErrorKind::Internal);
    assert_eq!(paused.message(), "Backpressure limit reached");
}

#[test]
fn test_tensor_wants_boost_dependencies() {
    let config = TensorSwapConfig::default();
    let wants = config.tensor_wants(&test_cid(), &vec![test_cid2(), test_cid3()], 7);
    assert_eq!(wants.len(), 3);
    assert_eq!(wants[0], (test_cid(), 7));
    assert_eq!(wants[1], (test_cid2(), 17));
    assert_eq!(wants[2], (test_cid3(), 17));
    assert_eq!(config.tensor_wants(&test_cid(), &vec![], 3), vec![(test_cid(), 3)]);
}

#[test]
fn test_chunk_wants_earlier_first() {
    let meta = TensorMetadata::new(test_cid()).with_size(300).with_chunks(vec![test_cid2(), test_cid3(), test_cid()]);
    let stream = TensorStream::new(meta);
    let wants = stream.chunk_wants(10);
    assert_eq!(wants, vec![(test_cid2(), 13), (test_cid3(), 12), (test_cid(), 11)]);

    let single = TensorStream::new(TensorMetadata::new(test_cid()));
    assert_eq!(single.chunk_wants(-4), vec![(test_cid(), -3)]);
}

#[test]
fn test_dependency_wants_from_metadata() {
    let config = TensorSwapConfig::default();
    let metadata = TensorMetadata::new(test_cid())
        .with_shape(vec![256, 256])
        .with_dtype("f32")
        .with_dependencies(vec![test_cid2()]);
    let priority = config.metadata_priority(&metadata, 0);
    assert_eq!(priority, 10);
    let wants = config.tensor_wants(&metadata.cid, &metadata.dependencies, priority);
    assert_eq!(wants, vec![(test_cid(), 10), (test_cid2(), 20)]);
}

fn queue_priorities(q: &mut StreamRequestQueue) -> Vec<(Cid, i32)> {
    let mut out = Vec::new();
    while let Some(r) = q.pop() {
        out.push((r.cid, r.priority));
    }
    out
}

#[test]
fn test_boost_with_resorts() {
    let mut q = StreamRequestQueue::new(10);
    assert!(q.push(request(test_cid(), 1)));
    assert!(q.push(request(test_cid2(), 5)));
    assert!(q.push(request(test_cid3(), 3)));
    // queue order: cid2 (5), cid3 (3), cid (1)
    q.boost_with(&vec![DeadlineState::Distant, DeadlineState::Near, DeadlineState::Passed], 100, 50);
    assert_eq!(queue_priorities(&mut q), vec![(test_cid(), 100), (test_cid3(), 50), (test_cid2(), 5)]);
}

#[test]
fn test_boost_with_keeps_higher_and_equal_order() {
    let mut q = StreamRequestQueue::new(10);
    assert!(q.push(request(test_cid(), 200)));
    assert!(q.push(request(test_cid2(), 7)));
    assert!(q.push(request(test_cid3(), 3)));
    q.boost_with(&vec![DeadlineState::Passed, DeadlineState::Near, DeadlineState::Near], 100, 7);
    // 200 stays above the critical level; cid3 rises to 7 and stays behind cid2
    assert_eq!(queue_priorities(&mut q), vec![(test_cid(), 200), (test_cid2(), 7), (test_cid3(), 7)]);
}

#[test]
fn test_deadline_state_classes() {
    let now = Instant::now();
    assert_eq!(deadline_state(&None, &now), DeadlineState::NoDeadline);
    assert_eq!(deadline_state(&Some(now), &now), DeadlineState::Passed);
    assert_eq!(deadline_state(&Some(now + Duration::from_millis(500)), &now), DeadlineState::Near);
    assert_eq!(deadline_state(&Some(now + Duration::from_secs(5)), &now), DeadlineState::Distant);
}

#[test]
fn test_boost_deadlines() {
    let mut q = StreamRequestQueue::new(10);
    let now = Instant::now();
    assert!(q.push(StreamRequest { cid: test_cid(), priority: 1, deadline: Some(now), queued_at: now }));
    assert!(q.push(StreamRequest { cid: test_cid2(), priority: 2, deadline: None, queued_at: now }));
    assert!(q.push(StreamRequest {
        cid: test_cid3(),
        priority: 3,
        deadline: Some(now + Duration::from_secs(3600)),
        queued_at: now,
    }));
    q.boost_deadlines(100, 50);
    assert_eq!(queue_priorities(&mut q), vec![(test_cid(), 100), (test_cid3(), 3), (test_cid2(), 2)]);
}

#[test]
fn test_deadline_class() {
    assert_eq!(deadline_class(true, 0), DeadlineState::Passed);
    assert_eq!(deadline_class(true, 7), DeadlineState::Passed);
    assert_eq!(deadline_class(false, 0), DeadlineState::Near);
    assert_eq!(deadline_class(false, 1), DeadlineState::Distant);
}

#[test]
fn test_einsum_trimming_agrees_with_std_whitespace() {
    for code in 0u32..0x3100 {
        if let Some(c) = char::from_u32(code) {
            if c == ',' || c == '-' || c == '>' {
                continue;
            }
            let text = format!("{c}i{c}->{c}j{c}");
            let expr = EinsumExpression::parse(&text).unwrap();
            let side = format!("{c}i{c}");
            assert_eq!(expr.inputs, vec![side.trim().to_string()]);
            assert_eq!(expr.output, format!("{c}j{c}").trim());
        }
    }
}
