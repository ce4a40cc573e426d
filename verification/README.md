# auto_comfy_maker

Composes image prompts from tag libraries and themes, fills ComfyUI workflow
templates with them, and schedules generation runs.

- `src/` is the library, verified with Verus: tag pools (`tags`), themes
  (`theme`), prompt composition with its seeded generator, the placeholders
  of fixed prompts and the optional model polish (`prompt_engine`), settings,
  their layering and environment overrides (`config`), workflow templates and
  the ComfyUI request and reply documents (`comfyui`), schedule parsing, job
  records and the retry policy (`scheduler`), the decisions of the commands
  (`cli`), and the text, path and encoding helpers they share (`text`,
  `paths`, `encoding`).
- `tests/` exercises the library on concrete values.
- `app/` is the program around it: command-line parsing, files, HTTP,
  the language-model client and the daemon loop.
