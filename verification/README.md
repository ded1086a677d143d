# zed_shell_marks

Terminal shell-integration bookkeeping and a few editor helpers, written in
Verus with their behaviour stated in contracts and proved.

- `src/osc133_scanner.rs`: a byte-level recognizer for `ESC ] 133 ; … BEL/ST`
  in the raw PTY stream, proved against a step function over all inputs,
  including sequences split across reads.
- `src/term.rs`, `src/semantic_zones.rs`: a terminal grid with scrollback and
  an alternate screen, the OSC 133 marks placed on it, the prompt / input /
  output zones derived from them, the last exit code, and the command text
  of an output zone.
- `src/path.rs`, `src/path_list.rs`: a deduplicated, sorted list of paths that
  remembers the order it was given in, with its two-string serialized form;
  paths compare component by component.
- `src/shell_integration.rs`: the bash, zsh and fish hook scripts and the
  wrapper text, arguments and variables that load them.
- `src/frame_buffer.rs`: frame buffers with a generation counter, their
  registry, and the polling state of a viewer.
- `src/ide_tools.rs`, `src/mention_nav.rs`: the computed parts of the editor
  tools and of mention navigation.
- `src/text.rs`: trimming, splitting, decimal parsing and formatting.

`app/` holds what cannot be verified: file and environment access for the
shell setup, the lock that shares the frame-buffer registry between threads,
JSON encoding, serde derives, and the viewer's floating-point zoom.
